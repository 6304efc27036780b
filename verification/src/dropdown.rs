//! Option lists of dropdowns (combobox > listbox > option items) and the text of an option.

use vstd::prelude::*;
use crate::node::{ControlState, NodeFlags, NodeId, NodeKind, FLAG_DISABLED};
use crate::event::{ControlEvent, EventKind};
use crate::tablist::NavKey;
use crate::roles::{
    find_child_by_role_recursive, find_child_by_slot, has_slot, role_holder, ROLE_LISTBOX,
    SLOT_VALUE,
};
use crate::dynamic::{
    append_child, appended, canonical, remove_child, same_tables, set_display_override, unlinked,
    with_display,
};
use crate::scene::{descend_all, first_below, DisplayOverride, lemma_view_nodes, nearest_up, NodeView, Scene};
use crate::strs::push_char;

verus! {

/// Whether `c` is a live option item.
pub open spec fn is_option(s: Scene, c: NodeId) -> bool {
    s.live(c) && s.node(c).kind == NodeKind::OptionItem
}

/// The option items among the direct children of `popup`, in document order.
pub open spec fn options_of(s: Scene, popup: NodeId) -> Seq<NodeId> {
    s.node(popup).children.filter(option_pred(s))
}

/// The test "is a live option item".
pub open spec fn option_pred(s: Scene) -> spec_fn(NodeId) -> bool {
    |c: NodeId| is_option(s, c)
}

/// Whether `p` is the listbox of `select`: the first node with the listbox role in
/// depth-first pre-order below it (`find_child_by_role_recursive`).
pub open spec fn listbox_below(s: Scene, select: NodeId, p: NodeId) -> bool {
    first_below(s, select, descend_all(), role_holder(s, ROLE_LISTBOX@)) == Some(p)
}

/// Text content recorded for `x` (empty when none).
pub open spec fn own_text(s: Scene, x: NodeId) -> Seq<char> {
    if s.text_contents@.contains_key(x.0) {
        s.text_contents@[x.0]@
    } else {
        Seq::empty()
    }
}

/// The text of the subtree of `x` in document order (each node's own text, then its
/// children's subtrees), looking at most `depth` levels down.
pub open spec fn subtree_text(s: Scene, x: NodeId, depth: nat) -> Seq<char>
    decreases depth, 0nat,
{
    own_text(s, x) + if depth > 0 && s.live(x) {
        children_text(s, s.node(x).children, (depth - 1) as nat)
    } else {
        Seq::empty()
    }
}

/// The subtree texts of `kids`, concatenated in order.
pub open spec fn children_text(s: Scene, kids: Seq<NodeId>, depth: nat) -> Seq<char>
    decreases depth, kids.len(),
{
    if kids.len() == 0 {
        Seq::empty()
    } else {
        children_text(s, kids.drop_last(), depth) + subtree_text(s, kids.last(), depth)
    }
}

/// `a` occurs in `b` as a contiguous piece.
pub open spec fn occurs_in(a: Seq<char>, b: Seq<char>) -> bool {
    exists|i: int, j: int| 0 <= i <= j <= b.len() && #[trigger] b.subrange(i, j) == a
}

/// A piece of `b` is a piece of any text holding `b` before or after other text.
proof fn lemma_occurs_widen(a: Seq<char>, b: Seq<char>, pre: Seq<char>, post: Seq<char>)
    requires
        occurs_in(a, b),
    ensures
        occurs_in(a, pre + b + post),
{
    let (i, j) = choose|i: int, j: int| 0 <= i <= j <= b.len() && #[trigger] b.subrange(i, j) == a;
    let c = pre + b + post;
    assert(c.subrange(pre.len() + i, pre.len() + j) =~= b.subrange(i, j));
}

/// A text occurs in itself.
proof fn lemma_occurs_self(a: Seq<char>)
    ensures
        occurs_in(a, a),
{
    assert(a.subrange(0, a.len() as int) =~= a);
}

/// The subtree text of a listed child is a piece of the subtree texts of the list.
proof fn lemma_child_text_occurs(s: Scene, kids: Seq<NodeId>, c: NodeId, depth: nat)
    requires
        kids.contains(c),
    ensures
        occurs_in(subtree_text(s, c, depth), children_text(s, kids, depth)),
    decreases kids.len(),
{
    let pre = children_text(s, kids.drop_last(), depth);
    if kids.last() == c {
        lemma_occurs_self(subtree_text(s, c, depth));
        lemma_occurs_widen(subtree_text(s, c, depth), subtree_text(s, c, depth), pre, Seq::empty());
        assert(pre + subtree_text(s, c, depth) + Seq::<char>::empty() =~= children_text(s, kids, depth));
    } else {
        let j = choose|j: int| 0 <= j < kids.len() && kids[j] == c;
        assert(kids.drop_last()[j] == c);
        lemma_child_text_occurs(s, kids.drop_last(), c, depth);
        lemma_occurs_widen(subtree_text(s, c, depth), pre, Seq::empty(), subtree_text(s, kids.last(), depth));
        assert(Seq::<char>::empty() + pre + subtree_text(s, kids.last(), depth) =~= children_text(s, kids, depth));
    }
}

/// The text shown for a node holds the text of every node below it, down to the depth it
/// looks: following a path of children from `x` (at most `depth` steps), the own text of the
/// node reached is a piece of `subtree_text` of `x`; with no step, `x`'s own text opens it.
pub proof fn law_option_text_holds_descendant_text(s: Scene, x: NodeId, path: Seq<NodeId>, depth: nat)
    requires
        path.len() <= depth,
        path.len() > 0 ==> s.live(x) && s.node(x).children.contains(path[0]),
        forall|i: int| 0 <= i < path.len() - 1 ==> s.live(#[trigger] path[i]) && s.node(path[i]).children.contains(
            path[i + 1],
        ),
    ensures
        occurs_in(own_text(s, if path.len() == 0 { x } else { path.last() }), subtree_text(s, x, depth)),
        subtree_text(s, x, depth).subrange(0, own_text(s, x).len() as int) == own_text(s, x),
    decreases path.len(),
{
    let whole = subtree_text(s, x, depth);
    let rest_text = if depth > 0 && s.live(x) {
        children_text(s, s.node(x).children, (depth - 1) as nat)
    } else {
        Seq::<char>::empty()
    };
    assert(whole == own_text(s, x) + rest_text);
    assert(whole.subrange(0, own_text(s, x).len() as int) =~= own_text(s, x));
    if path.len() == 0 {
        assert(whole.subrange(0, own_text(s, x).len() as int) == own_text(s, x));
        assert(occurs_in(own_text(s, x), whole));
    } else {
        let c = path[0];
        let tail = path.drop_first();
        assert forall|i: int| 0 <= i < tail.len() - 1 implies s.live(#[trigger] tail[i]) && s.node(tail[i]).children.contains(
            tail[i + 1],
        ) by {
            assert(tail[i] == path[i + 1]);
            assert(tail[i + 1] == path[i + 2]);
        }
        if tail.len() > 0 {
            assert(tail[0] == path[1]);
            assert(s.live(path[0]) && s.node(path[0]).children.contains(path[1]));
        }
        law_option_text_holds_descendant_text(s, c, tail, (depth - 1) as nat);
        let last = if tail.len() == 0 { c } else { tail.last() };
        assert(last == path.last());
        lemma_child_text_occurs(s, s.node(x).children, c, (depth - 1) as nat);
        let sub = subtree_text(s, c, (depth - 1) as nat);
        let kt = children_text(s, s.node(x).children, (depth - 1) as nat);
        // own text of `last` occurs in `sub`, which occurs in `kt`
        let (i1, i2) = choose|i: int, j: int| 0 <= i <= j <= sub.len() && #[trigger] sub.subrange(i, j) == own_text(s, last);
        let (j1, j2) = choose|i: int, j: int| 0 <= i <= j <= kt.len() && #[trigger] kt.subrange(i, j) == sub;
        assert(kt.subrange(j1 + i1, j1 + i2) =~= sub.subrange(i1, i2));
        assert(occurs_in(own_text(s, last), kt));
        lemma_occurs_widen(own_text(s, last), kt, own_text(s, x), Seq::empty());
        assert(own_text(s, x) + kt + Seq::<char>::empty() =~= whole);
    }
}

/// The text of a list of children split in two is the text of the first part followed by
/// that of the second: each child's text stands in document order.
pub proof fn law_children_text_in_order(s: Scene, a: Seq<NodeId>, b: Seq<NodeId>, depth: nat)
    ensures
        children_text(s, a + b, depth) == children_text(s, a, depth) + children_text(s, b, depth),
    decreases b.len(),
{
    if b.len() == 0 {
        assert(a + b =~= a);
        assert(children_text(s, a, depth) + children_text(s, b, depth) =~= children_text(s, a, depth));
    } else {
        law_children_text_in_order(s, a, b.drop_last(), depth);
        assert((a + b).drop_last() =~= a + b.drop_last());
        assert((a + b).last() == b.last());
        assert(children_text(s, a, depth) + children_text(s, b.drop_last(), depth) + subtree_text(
            s,
            b.last(),
            depth,
        ) =~= children_text(s, a, depth) + (children_text(s, b.drop_last(), depth) + subtree_text(
            s,
            b.last(),
            depth,
        )));
    }
}

/// Appends a string to `buf`.
fn push_all(buf: &mut String, t: &str)
    ensures
        final(buf)@ == old(buf)@ + t@,
{
    let n = t.unicode_len();
    let mut i: usize = 0;
    let ghost start = buf@;
    while i < n
        invariant
            n == t@.len(),
            i <= n,
            buf@ == start + t@.subrange(0, i as int),
        decreases n - i,
    {
        push_char(buf, t.get_char(i));
        proof {
            assert(t@.subrange(0, i + 1) =~= t@.subrange(0, i as int).push(t@[i as int]));
            assert(start + t@.subrange(0, i + 1) =~= (start + t@.subrange(0, i as int)).push(
                t@[i as int],
            ));
        }
        i = i + 1;
    }
    proof {
        assert(t@.subrange(0, n as int) =~= t@);
    }
}

/// Appends the text of the subtree of `x` to `buf` (see `subtree_text`).
fn collect_subtree_text(scene: &Scene, x: NodeId, depth: usize, buf: &mut String)
    ensures
        final(buf)@ == old(buf)@ + subtree_text(*scene, x, depth as nat),
    decreases depth,
{
    match scene.text_contents.get(&x.0) {
        Some(t) => push_all(buf, t.as_str()),
        None => {},
    }
    let ghost mid = buf@;
    if depth == 0 {
        proof {
            assert(mid + Seq::<char>::empty() =~= mid);
        }
        return ;
    }
    let kids = match scene.get(x) {
        Some(n) => &n.children,
        None => {
            proof {
                assert(mid + Seq::<char>::empty() =~= mid);
            }
            return ;
        },
    };
    let mut i: usize = 0;
    proof {
        assert(kids@.subrange(0, 0) =~= Seq::<NodeId>::empty());
        assert(mid + children_text(*scene, Seq::<NodeId>::empty(), (depth - 1) as nat) =~= mid);
    }
    while i < kids.len()
        invariant
            depth > 0,
            i <= kids@.len(),
            buf@ == mid + children_text(*scene, kids@.subrange(0, i as int), (depth - 1) as nat),
        decreases kids@.len() - i,
    {
        let ghost before = buf@;
        collect_subtree_text(scene, kids[i], depth - 1, buf);
        proof {
            let pre = kids@.subrange(0, i + 1);
            assert(pre.drop_last() =~= kids@.subrange(0, i as int));
            assert(pre.last() == kids@[i as int]);
            assert(buf@ =~= mid + children_text(*scene, pre, (depth - 1) as nat));
        }
        i = i + 1;
    }
    proof {
        assert(kids@.subrange(0, kids@.len() as int) =~= kids@);
    }
}

/// The option items among the direct children of `popup`, in order, each with whether it is
/// disabled.
fn option_entries(scene: &Scene, popup: NodeId) -> (r: Vec<(NodeId, bool)>)
    requires
        scene.live(popup),
    ensures
        r@.len() == options_of(*scene, popup).len(),
        forall|i: int|
            0 <= i < r@.len() ==> (#[trigger] r@[i]).0 == options_of(*scene, popup)[i] && r@[i].1 == (
            scene.node(r@[i].0).flags & FLAG_DISABLED == FLAG_DISABLED),
{
    let kids = match scene.get(popup) {
        Some(n) => &n.children,
        None => {
            return Vec::new();
        },
    };
    let ghost pred = option_pred(*scene);
    let ghost mut picked: Seq<NodeId> = Seq::empty();
    let mut out: Vec<(NodeId, bool)> = Vec::new();
    let mut i: usize = 0;
    proof {
        reveal(Seq::filter);
        assert(kids@.subrange(0, 0) =~= Seq::<NodeId>::empty());
    }
    while i < kids.len()
        invariant
            i <= kids@.len(),
            kids@ == scene.node(popup).children,
            pred == option_pred(*scene),
            picked == kids@.subrange(0, i as int).filter(pred),
            out@.len() == picked.len(),
            forall|j: int|
                0 <= j < out@.len() ==> (#[trigger] out@[j]).0 == picked[j] && out@[j].1 == (
                scene.node(out@[j].0).flags & FLAG_DISABLED == FLAG_DISABLED),
        decreases kids@.len() - i,
    {
        let c = kids[i];
        let ghost pre = kids@.subrange(0, i + 1);
        proof {
            assert(pre.drop_last() =~= kids@.subrange(0, i as int));
            assert(pre.last() == c);
            reveal(Seq::filter);
        }
        match scene.get(c) {
            Some(n) => {
                if n.kind == NodeKind::OptionItem {
                    let disabled = n.interaction.flags.contains(NodeFlags::disabled());
                    out.push((c, disabled));
                    proof {
                        picked = picked.push(c);
                    }
                }
            },
            None => {},
        }
        i = i + 1;
    }
    proof {
        assert(kids@.subrange(0, kids@.len() as int) =~= kids@);
    }
    out
}

/// The options of a dropdown with whether each is disabled: the option items among the
/// direct children of the listbox found below `select` (`find_child_by_role_recursive`), in
/// order; empty when `select` has no listbox below it.
pub fn dropdown_option_list(scene: &Scene, select: NodeId) -> (r: Vec<(NodeId, bool)>)
    requires
        scene.wf(),
    ensures
        option_ids_of(*scene, select, entry_ids(r@)),
        forall|i: int|
            0 <= i < r@.len() ==> (#[trigger] r@[i]).1 == (scene.node(r@[i].0).flags & FLAG_DISABLED
                == FLAG_DISABLED),
{
    match find_child_by_role_recursive(scene, select, ROLE_LISTBOX) {
        None => Vec::new(),
        Some(p) => {
            proof {
                crate::scene::lemma_below_live(*scene, select, p, descend_all());
            }
            let r = option_entries(scene, p);
            assert(listbox_below(*scene, select, p));
            assert(entry_ids(r@) =~= options_of(*scene, p));
            r
        },
    }
}

/// The handles of a list of (handle, disabled) entries.
pub open spec fn entry_ids(l: Seq<(NodeId, bool)>) -> Seq<NodeId> {
    l.map_values(|e: (NodeId, bool)| e.0)
}

/// The disabled flags of a list of (handle, disabled) entries.
pub open spec fn entry_flags(l: Seq<(NodeId, bool)>) -> Seq<bool> {
    l.map_values(|e: (NodeId, bool)| e.1)
}

/// Whether `l` is the option list of `select`: the option items of its listbox, or
/// empty when it has none.
pub open spec fn option_ids_of(s: Scene, select: NodeId, l: Seq<NodeId>) -> bool {
    ||| exists|p: NodeId| #[trigger] listbox_below(s, select, p) && l == options_of(s, p)
    ||| l.len() == 0 && (!s.live(select) || forall|p: NodeId| !#[trigger] listbox_below(s, select, p))
}

/// The listbox of `select` (`find_child_by_role_recursive`), if it has one.
pub open spec fn listbox_of(s: Scene, select: NodeId) -> Option<NodeId> {
    first_below(s, select, descend_all(), role_holder(s, ROLE_LISTBOX@))
}

/// The options of `select`: the option items among the direct children of its listbox, in
/// order; empty without a listbox.
pub open spec fn listbox_options(s: Scene, select: NodeId) -> Seq<NodeId> {
    match listbox_of(s, select) {
        Some(p) => options_of(s, p),
        None => Seq::empty(),
    }
}

/// The disabled flags of the options of `select` (`listbox_options`), in order.
pub open spec fn option_flags(s: Scene, select: NodeId) -> Seq<bool> {
    listbox_options(s, select).map_values(|c: NodeId| s.node(c).flags & FLAG_DISABLED == FLAG_DISABLED)
}

/// A dropdown has one option list.
pub proof fn lemma_option_ids_unique(s: Scene, select: NodeId, l: Seq<NodeId>)
    requires
        option_ids_of(s, select, l),
    ensures
        l == listbox_options(s, select),
{
    match listbox_of(s, select) {
        Some(p) => {
            assert(listbox_below(s, select, p));
            if !(exists|q: NodeId| #[trigger] listbox_below(s, select, q) && l == options_of(s, q)) {
                assert(false);
            }
        },
        None => {
            assert(l =~= Seq::<NodeId>::empty());
        },
    }
}

/// The text of the `n`-th option of a dropdown (option items among the direct children of
/// the listbox found below `select`, counted from 0): the texts of the option's subtree in
/// document order. `None` when there is no listbox or fewer options.
pub fn nth_option_text(scene: &Scene, select: NodeId, n: usize) -> (r: Option<String>)
    requires
        scene.wf(),
    ensures
        match r {
            Some(t) => exists|p: NodeId|
                listbox_below(*scene, select, p) && n < options_of(*scene, p).len() && t@
                    == subtree_text(*scene, options_of(*scene, p)[n as int], scene.slots().len()),
            None => !scene.live(select) || (forall|p: NodeId|
                !#[trigger] listbox_below(*scene, select, p)) || exists|p: NodeId|
                listbox_below(*scene, select, p) && options_of(*scene, p).len() <= n,
        },
{
    let p = match find_child_by_role_recursive(scene, select, ROLE_LISTBOX) {
        None => {
            return None;
        },
        Some(p) => p,
    };
    proof {
        crate::scene::lemma_below_live(*scene, select, p, descend_all());
        assert(listbox_below(*scene, select, p));
    }
    let opts = option_entries(scene, p);
    if n >= opts.len() {
        return None;
    }
    let mut buf = String::new();
    collect_subtree_text(scene, opts[n].0, scene.node_count(), &mut buf);
    proof {
        assert(Seq::<char>::empty() + subtree_text(*scene, opts@[n as int].0, scene.slots().len())
            =~= subtree_text(*scene, opts@[n as int].0, scene.slots().len()));
    }
    Some(buf)
}

/// The node views after moving `opt` from `select` to `popup` the way `remove_child` then
/// `append_child` do it: detached if `select` is its parent, then appended to `popup` unless
/// `popup` is dead, already lists it, or it still has a parent.
pub open spec fn moved(v: Map<u64, NodeView>, select: NodeId, popup: NodeId, opt: NodeId) -> Map<
    u64,
    NodeView,
> {
    let v1 = if v.contains_key(opt.0) && v[opt.0].parent == Some(select) {
        unlinked(v, select, opt)
    } else {
        v
    };
    if !v1.contains_key(popup.0) || v1[popup.0].children.contains(opt) || v1[opt.0].parent is Some {
        v1
    } else {
        appended(v1, popup, opt)
    }
}

/// The node views after moving each of `opts`, in order.
pub open spec fn moved_all(v: Map<u64, NodeView>, select: NodeId, popup: NodeId, opts: Seq<NodeId>) -> Map<
    u64,
    NodeView,
>
    decreases opts.len(),
{
    if opts.len() == 0 {
        v
    } else {
        moved(moved_all(v, select, popup, opts.drop_last()), select, popup, opts.last())
    }
}

/// Moves the option items that are direct children of `select` into its listbox
/// (`listbox_of`, found by `find_child_by_role_recursive`), in order, each detached from
/// `select` and appended to the listbox (`moved_all`); only node links change. Without a
/// listbox (or for a dead `select`) nothing changes.
pub fn reparent_options_into_popup(scene: &mut Scene, select: NodeId)
    requires
        old(scene).wf(),
    ensures
        final(scene).wf(),
        match listbox_of(*old(scene), select) {
            None => *final(scene) == *old(scene),
            Some(p) => final(scene).view_nodes() == moved_all(
                old(scene).view_nodes(),
                select,
                p,
                options_of(*old(scene), select),
            ) && same_tables(*old(scene), *final(scene)),
        },
{
    let ghost s0 = *scene;
    let p = match find_child_by_role_recursive(scene, select, ROLE_LISTBOX) {
        None => {
            return ;
        },
        Some(p) => p,
    };
    proof {
        crate::scene::lemma_below_live(*scene, select, p, descend_all());
        assert(listbox_below(s0, select, p));
    }
    let opts = option_entries(scene, select);
    let ghost all = options_of(s0, select);
    proof {
        reveal(Seq::filter);
        crate::scene::lemma_children_canonical(s0, select);
        let kids = s0.node(select).children;
        assert forall|j: int| 0 <= j < all.len() implies canonical(#[trigger] all[j]) by {
            assert(all.contains(all[j]));
            kids.lemma_filter_contains_rev(option_pred(s0), all[j]);
            let m = choose|m: int| 0 <= m < kids.len() && kids[m] == all[j];
            assert(kids[m] == all[j]);
        }
        assert forall|j: int| 0 <= j < all.len() implies s0.live(#[trigger] all[j]) by {
            s0.node(select).children.lemma_filter_pred(option_pred(s0), j);
        }
    }
    let mut i: usize = 0;
    while i < opts.len()
        invariant
            i <= opts@.len(),
            opts@.len() == all.len(),
            forall|j: int| 0 <= j < opts@.len() ==> (#[trigger] opts@[j]).0 == all[j],
            forall|j: int| 0 <= j < all.len() ==> canonical(#[trigger] all[j]),
            canonical(p),
            forall|j: int| 0 <= j < all.len() ==> s0.live(#[trigger] all[j]),
            scene.wf(),
            scene.slots().dom() == s0.slots().dom(),
            scene.view_nodes() == moved_all(s0.view_nodes(), select, p, all.take(i as int)),
            same_tables(s0, *scene),
        decreases opts@.len() - i,
    {
        let opt = opts[i].0;
        let ghost before = *scene;
        let _ = remove_child(scene, select, opt);
        let ghost mid = *scene;
        let _ = append_child(scene, p, opt);
        proof {
            lemma_view_nodes(before);
            lemma_view_nodes(mid);
            lemma_view_nodes(*scene);
            assert(all.take(i + 1).drop_last() =~= all.take(i as int));
            assert(all.take(i + 1).last() == opt);
            assert(scene.view_nodes() =~= moved(before.view_nodes(), select, p, opt));
        }
        i = i + 1;
    }
    proof {
        assert(all.take(all.len() as int) =~= all);
    }
}

/// Whether `x` holds dropdown state.
pub open spec fn is_dropdown(s: Scene, x: NodeId) -> bool {
    s.controls@.contains_key(x.0) && s.controls@[x.0] is Dropdown
}

/// How many nodes an upward search for the control owning a part looks at.
pub const OWNER_SEARCH_STEPS: usize = 100_000;

/// The dropdown owning `from`: the nearest dropdown among its strict ancestors, looking at
/// `OWNER_SEARCH_STEPS` of them at most.
pub open spec fn dropdown_owner_of(s: Scene, from: NodeId) -> Option<NodeId> {
    if s.live(from) {
        nearest_up(
            s,
            s.node(from).parent,
            |x: NodeId| is_dropdown(s, x),
            (OWNER_SEARCH_STEPS - 1) as nat,
        )
    } else {
        None
    }
}

/// `st` with its selection set to `idx` (only a dropdown state changes).
pub open spec fn with_selected(st: ControlState, idx: usize) -> ControlState {
    match st {
        ControlState::Dropdown { selected_index: _, open, value_lock, open_selected_index, option_values } =>
            ControlState::Dropdown { selected_index: idx, open, value_lock, open_selected_index, option_values },
        _ => st,
    }
}

/// `st` after committing `idx`: selected, value locked, popup closed, no rollback point.
pub open spec fn committed(st: ControlState, idx: usize) -> ControlState {
    match st {
        ControlState::Dropdown { option_values, .. } => ControlState::Dropdown {
            selected_index: idx,
            open: false,
            value_lock: true,
            open_selected_index: None,
            option_values,
        },
        _ => st,
    }
}

/// `st` after a cancel: the selection rolls back to the one at opening (if recorded), the
/// popup closes and the rollback point is cleared.
pub open spec fn closed(st: ControlState) -> ControlState {
    match st {
        ControlState::Dropdown { selected_index, open: _, value_lock, open_selected_index, option_values } =>
            ControlState::Dropdown {
                selected_index: match open_selected_index {
                    Some(p) => p,
                    None => selected_index,
                },
                open: false,
                value_lock,
                open_selected_index: None,
                option_values,
            },
        _ => st,
    }
}

/// `st` after opening: a closed dropdown opens and records its selection as the rollback
/// point; an open one stays as it is.
pub open spec fn opened(st: ControlState) -> ControlState {
    match st {
        ControlState::Dropdown { selected_index, open, value_lock, open_selected_index, option_values } =>
            if open {
                st
            } else {
                ControlState::Dropdown {
                    selected_index,
                    open: true,
                    value_lock,
                    open_selected_index: Some(selected_index),
                    option_values,
                }
            },
        _ => st,
    }
}

/// The selection a dropdown had committed: its rollback point while open, else its selection.
pub open spec fn prev_committed(st: ControlState) -> usize {
    match st {
        ControlState::Dropdown { selected_index, open_selected_index, .. } => match open_selected_index {
            Some(p) => p,
            None => selected_index,
        },
        _ => 0,
    }
}

/// `after` is `before` with the control state of `x` replaced by `st` and nothing else changed.
pub open spec fn control_set(before: Scene, after: Scene, x: NodeId, st: ControlState) -> bool {
    &&& after.controls@ == before.controls@.insert(x.0, st)
    &&& after.nodes == before.nodes
    &&& after.roots == before.roots
    &&& after.focused_node == before.focused_node
    &&& after.roles == before.roles
    &&& after.text_contents == before.text_contents
    &&& after.image_srcs == before.image_srcs
}

/// `after` holds the same control states as `before` and nothing else changed.
pub open spec fn controls_kept(before: Scene, after: Scene) -> bool {
    &&& after.controls@ == before.controls@
    &&& after.nodes == before.nodes
    &&& after.roots == before.roots
    &&& after.focused_node == before.focused_node
    &&& after.roles == before.roles
    &&& after.text_contents == before.text_contents
    &&& after.image_srcs == before.image_srcs
}

/// The dropdown owning `from`: its nearest strict ancestor with dropdown state, looking at
/// `OWNER_SEARCH_STEPS` ancestors at most.
fn dropdown_owner(scene: &Scene, from: NodeId) -> (r: Option<NodeId>)
    ensures
        r == dropdown_owner_of(*scene, from),
{
    let ghost pred = |x: NodeId| is_dropdown(*scene, x);
    let mut cur = match scene.get(from) {
        Some(n) => match n.parent {
            Some(p) => p,
            None => {
                return None;
            },
        },
        None => {
            return None;
        },
    };
    let mut i: usize = 0;
    while i < OWNER_SEARCH_STEPS
        invariant
            i < OWNER_SEARCH_STEPS,
            pred == (|x: NodeId| is_dropdown(*scene, x)),
            nearest_up(*scene, Some(cur), pred, (OWNER_SEARCH_STEPS - 1 - i) as nat)
                == dropdown_owner_of(*scene, from),
        decreases OWNER_SEARCH_STEPS - i,
    {
        proof {
            reveal_with_fuel(nearest_up, 2);
        }
        let n = match scene.get(cur) {
            Some(n) => n,
            None => {
                return None;
            },
        };
        assert(pred(cur) == is_dropdown(*scene, cur));
        match scene.controls.get(cur) {
            Some(ControlState::Dropdown { .. }) => {
                return Some(cur);
            },
            _ => {},
        }
        if i + 1 == OWNER_SEARCH_STEPS {
            return None;
        }
        cur = match n.parent {
            Some(p) => p,
            None => {
                return None;
            },
        };
        i = i + 1;
    }
    None
}

/// `r` is the position of `option` in `l` (its first occurrence), paired with `owner`, or
/// `None` when `l` does not hold it.
pub open spec fn indexed_in(l: Seq<NodeId>, owner: NodeId, option: NodeId, r: Option<(NodeId, usize)>) -> bool {
    match r {
        Some((o, i)) => o == owner && i < l.len() && l[i as int] == option && forall|j: int|
            0 <= j < i ==> l[j] != option,
        None => !l.contains(option),
    }
}

/// `r` is `None` when no dropdown owns `option`, else the position of `option` in an option
/// list of its owner (`indexed_in`).
pub open spec fn option_index_of(s: Scene, option: NodeId, r: Option<(NodeId, usize)>) -> bool {
    match dropdown_owner_of(s, option) {
        None => r is None,
        Some(o) => exists|l: Seq<NodeId>| #[trigger] option_ids_of(s, o, l) && indexed_in(l, o, option, r),
    }
}

/// Position of `option` in the option list of the dropdown owning it: `Some((owner, index))`,
/// `None` when no dropdown owns it or it is not one of the owner's options.
pub fn option_index(scene: &Scene, option: NodeId) -> (r: Option<(NodeId, usize)>)
    requires
        scene.wf(),
    ensures
        option_index_of(*scene, option, r),
{
    let owner = match dropdown_owner(scene, option) {
        Some(o) => o,
        None => {
            return None;
        },
    };
    let opts = dropdown_option_list(scene, owner);
    let ghost l = entry_ids(opts@);
    let mut i: usize = 0;
    while i < opts.len()
        invariant
            i <= opts@.len(),
            l == entry_ids(opts@),
            option_ids_of(*scene, owner, l),
            dropdown_owner_of(*scene, option) == Some(owner),
            forall|j: int| 0 <= j < i ==> l[j] != option,
        decreases opts@.len() - i,
    {
        if opts[i].0.0 == option.0 {
            assert(l[i as int] == option);
            assert(i < l.len());
            let r = Some((owner, i));
            assert(indexed_in(l, owner, option, r));
            assert(option_ids_of(*scene, owner, l));
            assert(option_index_of(*scene, option, r)) by {
                let o = dropdown_owner_of(*scene, option)->0;
                assert(o == owner);
                assert(option_ids_of(*scene, o, l) && indexed_in(l, o, option, r));
            }
            return r;
        }
        i = i + 1;
    }
    assert(!l.contains(option));
    assert(indexed_in(l, owner, option, None));
    None
}

/// The value of the selected option of a dropdown: its `value` attribute when it has one,
/// else the option's text (`nth_option_text`). `None` for a node without dropdown state, or
/// when the selected option has no value and does not exist.
pub fn dropdown_selected_value(scene: &Scene, select: NodeId) -> (r: Option<String>)
    requires
        scene.wf(),
    ensures
        !is_dropdown(*scene, select) ==> r is None,
        is_dropdown(*scene, select) ==> {
            let st = scene.controls@[select.0];
            let n = st->Dropdown_selected_index;
            let vals = st->Dropdown_option_values@;
            if n < vals.len() && vals[n as int] is Some {
                r matches Some(v) && v@ == vals[n as int]->0@
            } else {
                match r {
                    Some(t) => exists|p: NodeId|
                        listbox_below(*scene, select, p) && n < options_of(*scene, p).len() && t@
                            == subtree_text(*scene, options_of(*scene, p)[n as int], scene.slots().len()),
                    None => !scene.live(select) || (forall|p: NodeId|
                        !#[trigger] listbox_below(*scene, select, p)) || exists|p: NodeId|
                        listbox_below(*scene, select, p) && options_of(*scene, p).len() <= n,
                }
            }
        },
{
    let (n, vals) = match scene.controls.get(select) {
        Some(ControlState::Dropdown { selected_index, option_values, .. }) => (*selected_index, option_values),
        _ => {
            return None;
        },
    };
    if n < vals.len() {
        match &vals[n] {
            Some(v) => {
                return Some(v.clone());
            },
            None => {},
        }
    }
    nth_option_text(scene, select, n)
}

/// The value of one option: its `value` attribute when it has one, else the text of its
/// subtree. `None` when `option_index` finds no position for it.
pub fn option_value(scene: &Scene, option: NodeId) -> (r: Option<String>)
    requires
        scene.wf(),
    ensures
        match dropdown_owner_of(*scene, option) {
            None => r is None,
            Some(o) => exists|l: Seq<NodeId>|
                #[trigger] option_ids_of(*scene, o, l) && if l.contains(option) {
                    let i = crate::dynamic::first_pos(l, option);
                    let vals = scene.controls@[o.0]->Dropdown_option_values@;
                    r matches Some(v) && v@ == if i < vals.len() && vals[i] is Some {
                        vals[i]->0@
                    } else {
                        subtree_text(*scene, option, scene.slots().len())
                    }
                } else {
                    r is None
                },
        },
{
    let (owner, idx) = match option_index(scene, option) {
        Some(p) => p,
        None => {
            return None;
        },
    };
    let ghost l = choose|l: Seq<NodeId>| #[trigger] option_ids_of(*scene, owner, l) && indexed_in(l, owner, option, Some((owner, idx)));
    proof {
        assert(l.contains(option));
        let i = crate::dynamic::first_pos(l, option);
        assert(0 <= i < l.len() && l[i] == option && forall|j: int| 0 <= j < i ==> l[j] != option);
        if i < idx { assert(l[i] != option); }
        if idx < i { assert(l[idx as int] != option); }
        assert(i == idx);
        crate::scene::lemma_nearest_up(*scene, scene.node(option).parent, |x: NodeId| is_dropdown(*scene, x), (OWNER_SEARCH_STEPS - 1) as nat);
        assert(is_dropdown(*scene, owner));
    }
    match scene.controls.get(owner) {
        Some(ControlState::Dropdown { option_values, .. }) => {
            if idx < option_values.len() {
                match &option_values[idx] {
                    Some(v) => {
                        return Some(v.clone());
                    },
                    None => {},
                }
            }
        },
        _ => {},
    }
    let mut buf = String::new();
    collect_subtree_text(scene, option, scene.node_count(), &mut buf);
    proof {
        assert(Seq::<char>::empty() + subtree_text(*scene, option, scene.slots().len())
            =~= subtree_text(*scene, option, scene.slots().len()));
        assert(option_ids_of(*scene, owner, l));
    }
    Some(buf)
}

/// Whether an option is the selected one of the dropdown owning it (its position equals the
/// owner's selection). `None` when `option_index` finds no position for it.
pub fn option_selected(scene: &Scene, option: NodeId) -> (r: Option<bool>)
    requires
        scene.wf(),
    ensures
        match dropdown_owner_of(*scene, option) {
            None => r is None,
            Some(o) => exists|l: Seq<NodeId>|
                #[trigger] option_ids_of(*scene, o, l) && if l.contains(option) {
                    r == Some(scene.controls@[o.0]->Dropdown_selected_index == crate::dynamic::first_pos(l, option))
                } else {
                    r is None
                },
        },
{
    let (owner, idx) = match option_index(scene, option) {
        Some(p) => p,
        None => {
            return None;
        },
    };
    let ghost l = choose|l: Seq<NodeId>| #[trigger] option_ids_of(*scene, owner, l) && indexed_in(l, owner, option, Some((owner, idx)));
    proof {
        assert(l.contains(option));
        let i = crate::dynamic::first_pos(l, option);
        assert(0 <= i < l.len() && l[i] == option && forall|j: int| 0 <= j < i ==> l[j] != option);
        if i < idx { assert(l[i] != option); }
        if idx < i { assert(l[idx as int] != option); }
        assert(i == idx);
        crate::scene::lemma_nearest_up(*scene, scene.node(option).parent, |x: NodeId| is_dropdown(*scene, x), (OWNER_SEARCH_STEPS - 1) as nat);
        assert(is_dropdown(*scene, owner));
    }
    assert(option_ids_of(*scene, owner, l));
    match scene.controls.get(owner) {
        Some(ControlState::Dropdown { selected_index, .. }) => Some(*selected_index == idx),
        _ => None,
    }
}

/// The selection event of `select` with payload `idx`.
pub open spec fn selection_event(select: NodeId, idx: usize) -> ControlEvent {
    ControlEvent { node: select, kind: EventKind::SelectionChanged(idx) }
}

/// Commits `idx` as the selection of the dropdown `select` (`committed`) and reports a
/// selection event when it differs from the selection committed before (`prev_committed`).
/// A node without dropdown state is left alone and nothing is reported.
pub fn commit_dropdown_selection(scene: &mut Scene, select: NodeId, idx: usize, out: &mut Vec<ControlEvent>)
    ensures
        is_dropdown(*old(scene), select) ==> control_set(
            *old(scene),
            *final(scene),
            select,
            committed(old(scene).controls@[select.0], idx),
        ),
        !is_dropdown(*old(scene), select) ==> controls_kept(*old(scene), *final(scene)),
        final(out)@ == if is_dropdown(*old(scene), select) && idx != prev_committed(
            old(scene).controls@[select.0],
        ) {
            old(out)@.push(selection_event(select, idx))
        } else {
            old(out)@
        },
{
    let ghost s0 = *scene;
    let prev = match scene.controls.get(select) {
        Some(ControlState::Dropdown { selected_index, open_selected_index, .. }) => match open_selected_index {
            Some(p) => *p,
            None => *selected_index,
        },
        _ => idx,
    };
    let changed = idx != prev;
    match scene.controls.get_mut(select) {
        Some(st) => match st {
            ControlState::Dropdown { selected_index, open, value_lock, open_selected_index, .. } => {
                *selected_index = idx;
                *value_lock = true;
                *open = false;
                *open_selected_index = None;
            },
            _ => {},
        },
        None => {},
    }
    proof {
        if !is_dropdown(s0, select) {
            assert(scene.controls@ =~= s0.controls@);
        }
    }
    if changed {
        out.push(ControlEvent { node: select, kind: EventKind::SelectionChanged(idx) });
    }
}

/// Opens the dropdown `select` (`opened`): a closed one records its selection as the rollback
/// point; an open one, or a node without dropdown state, is left alone.
pub fn open_dropdown(scene: &mut Scene, select: NodeId)
    ensures
        is_dropdown(*old(scene), select) ==> control_set(
            *old(scene),
            *final(scene),
            select,
            opened(old(scene).controls@[select.0]),
        ),
        !is_dropdown(*old(scene), select) ==> controls_kept(*old(scene), *final(scene)),
{
    let ghost s0 = *scene;
    match scene.controls.get_mut(select) {
        Some(st) => match st {
            ControlState::Dropdown { selected_index, open, open_selected_index, .. } => {
                if !*open {
                    *open = true;
                    *open_selected_index = Some(*selected_index);
                }
            },
            _ => {},
        },
        None => {},
    }
    proof {
        if !is_dropdown(s0, select) {
            assert(scene.controls@ =~= s0.controls@);
        }
    }
}

/// Closes the dropdown `select` as a cancel (`closed`): the selection rolls back to the one at
/// opening and no event is reported. A node without dropdown state is left alone.
pub fn close_dropdown(scene: &mut Scene, select: NodeId)
    ensures
        is_dropdown(*old(scene), select) ==> control_set(
            *old(scene),
            *final(scene),
            select,
            closed(old(scene).controls@[select.0]),
        ),
        !is_dropdown(*old(scene), select) ==> controls_kept(*old(scene), *final(scene)),
{
    let ghost s0 = *scene;
    match scene.controls.get_mut(select) {
        Some(st) => match st {
            ControlState::Dropdown { selected_index, open, open_selected_index, .. } => {
                match *open_selected_index {
                    Some(p) => {
                        *selected_index = p;
                    },
                    None => {},
                }
                *open = false;
                *open_selected_index = None;
            },
            _ => {},
        },
        None => {},
    }
    proof {
        if !is_dropdown(s0, select) {
            assert(scene.controls@ =~= s0.controls@);
        }
    }
}

/// `new` is where keyboard seeking from `cur` lands among options with disabled flags
/// `flags`: the nearest enabled option after `cur` (forward) or before it (backward), walking
/// only inside the list; `cur` itself when the walk meets no enabled option.
pub open spec fn seek_result(flags: Seq<bool>, cur: int, forward: bool, new: int) -> bool {
    if forward {
        if exists|j: int| cur < j < flags.len() && !#[trigger] flags[j] {
            cur < new < flags.len() && !flags[new] && forall|k: int| cur < k < new ==> #[trigger] flags[k]
        } else {
            new == cur
        }
    } else {
        if cur <= flags.len() && exists|j: int| 0 <= j < cur && !#[trigger] flags[j] {
            0 <= new < cur && !flags[new] && forall|k: int| new < k < cur ==> #[trigger] flags[k]
        } else {
            new == cur
        }
    }
}

/// Keyboard seek over an option list (see `seek_result`).
fn seek_option(opts: &Vec<(NodeId, bool)>, cur: usize, forward: bool) -> (r: usize)
    ensures
        seek_result(entry_flags(opts@), cur as int, forward, r as int),
{
    let ghost flags = entry_flags(opts@);
    let n = opts.len();
    if forward {
        if cur >= n {
            return cur;
        }
        let mut j: usize = cur + 1;
        while j < n
            invariant
                forward,
                cur < j <= n,
                n == flags.len(),
                flags == entry_flags(opts@),
                forall|k: int| cur < k < j ==> #[trigger] flags[k],
            decreases n - j,
        {
            if !opts[j].1 {
                assert(!flags[j as int]);
                return j;
            }
            j = j + 1;
        }
        cur
    } else {
        if cur == 0 || cur > n {
            return cur;
        }
        let mut j: usize = cur;
        while j > 0
            invariant
                !forward,
                0 <= j <= cur <= n,
                n == flags.len(),
                flags == entry_flags(opts@),
                forall|k: int| j <= k < cur ==> #[trigger] flags[k],
            decreases j,
        {
            if !opts[j - 1].1 {
                assert(!flags[j - 1]);
                return j - 1;
            }
            j = j - 1;
        }
        cur
    }
}

/// Keyboard routing of an open dropdown; returns whether the key was consumed. Up and Down
/// move the selection to the nearest enabled option in that direction (`seek_result` over the
/// disabled flags of `select`'s options, `option_flags`), staying put when there is none,
/// without committing or closing; Enter commits the selection
/// (`commit_dropdown_selection`); Escape cancels (`close_dropdown`). Other keys, a closed
/// dropdown and a node without dropdown state are not routed and change nothing.
pub fn on_dropdown_key(scene: &mut Scene, select: NodeId, key: NavKey, out: &mut Vec<ControlEvent>) -> (r: bool)
    requires
        old(scene).wf(),
    ensures
        ({
            let s = *old(scene);
            let routed = is_dropdown(s, select) && s.controls@[select.0]->Dropdown_open;
            let st = s.controls@[select.0];
            &&& !routed || key == NavKey::Left || key == NavKey::Right || key == NavKey::Other ==> !r
                && controls_kept(s, *final(scene)) && final(out)@ == old(out)@
            &&& routed && (key == NavKey::Up || key == NavKey::Down) ==> r && final(out)@ == old(out)@
                && {
                let new = final(scene).controls@[select.0]->Dropdown_selected_index;
                &&& seek_result(
                    option_flags(s, select),
                    st->Dropdown_selected_index as int,
                    key == NavKey::Down,
                    new as int,
                )
                &&& control_set(s, *final(scene), select, with_selected(st, new))
            }
            &&& routed && key == NavKey::Enter ==> r && control_set(
                s,
                *final(scene),
                select,
                committed(st, st->Dropdown_selected_index),
            ) && final(out)@ == if st->Dropdown_selected_index != prev_committed(st) {
                old(out)@.push(selection_event(select, st->Dropdown_selected_index))
            } else {
                old(out)@
            }
            &&& routed && key == NavKey::Escape ==> r && control_set(s, *final(scene), select, closed(st))
                && final(out)@ == old(out)@
        }),
{
    let ghost s0 = *scene;
    let cur = match scene.controls.get(select) {
        Some(ControlState::Dropdown { selected_index, open, .. }) => {
            if !*open {
                return false;
            }
            *selected_index
        },
        _ => {
            return false;
        },
    };
    match key {
        NavKey::Up | NavKey::Down => {
            let opts = dropdown_option_list(scene, select);
            let new = if opts.len() == 0 {
                cur
            } else {
                seek_option(&opts, cur, key == NavKey::Down)
            };
            match scene.controls.get_mut(select) {
                Some(st) => match st {
                    ControlState::Dropdown { selected_index, .. } => {
                        *selected_index = new;
                    },
                    _ => {},
                },
                None => {},
            }
            proof {
                let l = opts@;
                lemma_option_ids_unique(s0, select, entry_ids(l));
                assert forall|i: int| 0 <= i < l.len() implies #[trigger] entry_flags(l)[i] == option_flags(
                    s0,
                    select,
                )[i] by {
                    assert(entry_ids(l)[i] == l[i].0);
                }
                assert(entry_flags(l) =~= option_flags(s0, select));
                assert(control_set(s0, *scene, select, with_selected(s0.controls@[select.0], new)));
                assert(scene.controls@[select.0]->Dropdown_selected_index == new);
            }
            true
        },
        NavKey::Enter => {
            commit_dropdown_selection(scene, select, cur, out);
            true
        },
        NavKey::Escape => {
            close_dropdown(scene, select);
            true
        },
        _ => false,
    }
}

/// Opening a closed dropdown, moving its selection anywhere and cancelling gives back the
/// state it had before opening.
pub proof fn law_cancel_restores_selection(st: ControlState, k: usize)
    requires
        st matches ControlState::Dropdown { open: false, open_selected_index: None, .. },
    ensures
        closed(with_selected(opened(st), k)) == st,
{
}

/// Committing the selection a dropdown was opened with reports nothing; committing any other
/// index reports it.
pub proof fn law_commit_reports_net_change(st: ControlState, idx: usize)
    requires
        st matches ControlState::Dropdown { open: false, .. },
    ensures
        (prev_committed(opened(st)) == idx) == (st->Dropdown_selected_index == idx),
        committed(opened(st), idx)->Dropdown_selected_index == idx,
        !committed(opened(st), idx)->Dropdown_open,
{
}

/// `c` is the first direct child of the live node `parent` with a `data-slot` named `slot`.
pub open spec fn first_slot_child(s: Scene, parent: NodeId, slot: Seq<char>, c: NodeId) -> bool {
    s.live(parent) && exists|i: int|
        0 <= i < s.node(parent).children.len() && s.node(parent).children[i] == c && has_slot(s, c, slot)
            && forall|j: int| 0 <= j < i ==> !has_slot(s, #[trigger] s.node(parent).children[j], slot)
}

/// Whether `x` is a live text node.
pub open spec fn is_text_node(s: Scene, x: NodeId) -> bool {
    s.live(x) && s.node(x).kind == NodeKind::TextNode
}

/// `t` is the first direct child of the live node `v` that is a text node.
pub open spec fn first_text_child(s: Scene, v: NodeId, t: NodeId) -> bool {
    s.live(v) && exists|i: int|
        0 <= i < s.node(v).children.len() && s.node(v).children[i] == t && is_text_node(s, t) && forall|j: int|
            0 <= j < i ==> !is_text_node(s, #[trigger] s.node(v).children[j])
}

/// `t` is what a dropdown's value shows for selection `n`: the text of option `n` of the
/// listbox of `select` (`nth_option_text`), or empty when there is no such option.
pub open spec fn shown_option_text(s: Scene, select: NodeId, n: usize, t: Seq<char>) -> bool {
    ||| exists|p: NodeId|
        #[trigger] listbox_below(s, select, p) && n < options_of(s, p).len() && t == subtree_text(
            s,
            options_of(s, p)[n as int],
            s.slots().len(),
        )
    ||| t == Seq::<char>::empty() && (!s.live(select) || (forall|p: NodeId|
        !#[trigger] listbox_below(s, select, p)) || exists|p: NodeId|
        #[trigger] listbox_below(s, select, p) && options_of(s, p).len() <= n)
}

/// The first text node child of `v` (`None` when there is none or `v` is dead).
fn first_text_node(scene: &Scene, v: NodeId) -> (r: Option<NodeId>)
    ensures
        match r {
            Some(t) => first_text_child(*scene, v, t),
            None => !scene.live(v) || forall|j: int|
                0 <= j < scene.node(v).children.len() ==> !is_text_node(*scene, #[trigger] scene.node(v).children[j]),
        },
{
    let kids = match scene.get(v) {
        Some(n) => &n.children,
        None => {
            return None;
        },
    };
    let mut i: usize = 0;
    while i < kids.len()
        invariant
            scene.live(v),
            kids@ == scene.node(v).children,
            i <= kids@.len(),
            forall|j: int| 0 <= j < i ==> !is_text_node(*scene, #[trigger] kids@[j]),
        decreases kids@.len() - i,
    {
        let c = kids[i];
        match scene.get(c) {
            Some(n) => {
                if n.kind == NodeKind::TextNode {
                    assert(kids@[i as int] == c);
                    return Some(c);
                }
            },
            None => {},
        }
        i = i + 1;
    }
    None
}

/// The popup of the dropdown `select` and whether it shows: its listbox (`listbox_of`), shown
/// exactly while the dropdown is open (the host sets its display and places it). `None` for
/// a node without dropdown state or without a listbox.
pub fn dropdown_popup_shown(scene: &Scene, select: NodeId) -> (r: Option<(NodeId, bool)>)
    requires
        scene.wf(),
    ensures
        r == if is_dropdown(*scene, select) {
            match listbox_of(*scene, select) {
                Some(p) => Some((p, scene.controls@[select.0]->Dropdown_open)),
                None => None,
            }
        } else {
            None
        },
{
    let open = match scene.controls.get(select) {
        Some(ControlState::Dropdown { open, .. }) => *open,
        _ => {
            return None;
        },
    };
    match find_child_by_role_recursive(scene, select, ROLE_LISTBOX) {
        Some(p) => Some((p, open)),
        None => None,
    }
}

/// Shows the popup of the dropdown `select` while it is open and hides it while it is closed
/// (`dropdown_popup_shown`): its listbox gets the display override `Block` or `Hidden` and a
/// pending mesh rebuild. A node without dropdown state or without a listbox is left alone.
pub fn sync_dropdown_popup(scene: &mut Scene, select: NodeId)
    requires
        old(scene).wf(),
    ensures
        final(scene).wf(),
        match (if is_dropdown(*old(scene), select) { listbox_of(*old(scene), select) } else { None }) {
            Some(p) => final(scene).view_nodes() == with_display(
                old(scene).view_nodes(),
                p,
                Some(
                    if old(scene).controls@[select.0]->Dropdown_open {
                        DisplayOverride::Block
                    } else {
                        DisplayOverride::Hidden
                    },
                ),
            ) && same_tables(*old(scene), *final(scene)),
            None => *final(scene) == *old(scene),
        },
{
    let open = match scene.controls.get(select) {
        Some(ControlState::Dropdown { open, .. }) => *open,
        _ => {
            return ;
        },
    };
    let p = match find_child_by_role_recursive(scene, select, ROLE_LISTBOX) {
        Some(p) => p,
        None => {
            return ;
        },
    };
    proof {
        crate::scene::lemma_below_live(*scene, select, p, descend_all());
    }
    let d = if open {
        DisplayOverride::Block
    } else {
        DisplayOverride::Hidden
    };
    let _ = set_display_override(scene, p, Some(d));
}

/// Shows the selection of the dropdown `select` in its value slot: the first text node under
/// its first `data-slot="value"` child gets the text of the selected option (empty when the
/// selection has no option) and is marked for re-measuring. A node without dropdown state,
/// without a value slot or without a text node in it is left alone.
pub fn sync_dropdown_value(scene: &mut Scene, select: NodeId)
    requires
        old(scene).wf(),
    ensures
        final(scene).wf(),
        !(is_dropdown(*old(scene), select) && exists|v: NodeId, tn: NodeId|
            #[trigger] first_slot_child(*old(scene), select, SLOT_VALUE@, v) && #[trigger] first_text_child(
                *old(scene),
                v,
                tn,
            )) ==> *final(scene) == *old(scene),
        forall|v: NodeId, tn: NodeId|
            is_dropdown(*old(scene), select) && #[trigger] first_slot_child(*old(scene), select, SLOT_VALUE@, v)
                && #[trigger] first_text_child(*old(scene), v, tn) ==> exists|t: Seq<char>|
                #[trigger] shown_option_text(
                    *old(scene),
                    select,
                    old(scene).controls@[select.0]->Dropdown_selected_index,
                    t,
                ) && final(scene).text_contents@ == old(scene).text_contents@.insert(
                    tn.0,
                    final(scene).text_contents@[tn.0],
                ) && final(scene).text_contents@[tn.0]@ == t
                && final(scene).view_nodes() == old(scene).view_nodes().insert(
                tn.0,
                NodeView { dirty_text: true, ..old(scene).view_nodes()[tn.0] },
            ) && final(scene).roots == old(scene).roots && final(scene).focused_node
                == old(scene).focused_node && final(scene).roles == old(scene).roles
                && final(scene).controls == old(scene).controls && final(scene).image_srcs
                == old(scene).image_srcs,
{
    let ghost s0 = *scene;
    let n = match scene.controls.get(select) {
        Some(ControlState::Dropdown { selected_index, .. }) => *selected_index,
        _ => {
            return ;
        },
    };
    let v = match find_child_by_slot(scene, select, SLOT_VALUE) {
        Some(v) => v,
        None => {
            return ;
        },
    };
    let tn = match first_text_node(scene, v) {
        Some(t) => t,
        None => {
            return ;
        },
    };
    let text = match nth_option_text(scene, select, n) {
        Some(t) => t,
        None => String::new(),
    };
    let ghost t = text@;
    proof {
        reveal_strlit("value");
        assert(first_slot_child(s0, select, SLOT_VALUE@, v));
        assert(shown_option_text(s0, select, n, t));
    }
    scene.text_contents.insert(tn.0, text);
    let ghost s1 = *scene;
    match scene.get_mut(tn) {
        Some(node) => {
            node.dirty_text = true;
        },
        None => {},
    }
    proof {
        lemma_view_nodes(s0);
        lemma_view_nodes(s1);
        lemma_view_nodes(*scene);
        crate::scene::lemma_children_canonical(s0, v);
        assert(scene.slots().dom() =~= s0.slots().dom());
        crate::scene::lemma_same_links(s0, *scene);
        assert(scene.view_nodes() =~= s0.view_nodes().insert(
            tn.0,
            NodeView { dirty_text: true, ..s0.view_nodes()[tn.0] },
        ));
        assert(scene.text_contents@ =~= s0.text_contents@.insert(tn.0, scene.text_contents@[tn.0]));
        assert forall|v2: NodeId, tn2: NodeId|
            is_dropdown(s0, select) && #[trigger] first_slot_child(s0, select, SLOT_VALUE@, v2)
                && #[trigger] first_text_child(s0, v2, tn2) implies v2 == v && tn2 == tn by {
            lemma_first_unique_slot(s0, select, SLOT_VALUE@, v, v2);
            lemma_first_unique_text(s0, v, tn, tn2);
        }
    }
}

/// There is one first slot child.
proof fn lemma_first_unique_slot(s: Scene, parent: NodeId, slot: Seq<char>, a: NodeId, b: NodeId)
    requires
        first_slot_child(s, parent, slot, a),
        first_slot_child(s, parent, slot, b),
    ensures
        a == b,
{
    let kids = s.node(parent).children;
    let i = choose|i: int| 0 <= i < kids.len() && kids[i] == a && has_slot(s, a, slot) && forall|j: int| 0 <= j < i ==> !has_slot(s, #[trigger] kids[j], slot);
    let k = choose|k: int| 0 <= k < kids.len() && kids[k] == b && has_slot(s, b, slot) && forall|j: int| 0 <= j < k ==> !has_slot(s, #[trigger] kids[j], slot);
    if i < k {
        assert(!has_slot(s, kids[i], slot));
    } else if k < i {
        assert(!has_slot(s, kids[k], slot));
    }
}

/// There is one first text child.
proof fn lemma_first_unique_text(s: Scene, v: NodeId, a: NodeId, b: NodeId)
    requires
        first_text_child(s, v, a),
        first_text_child(s, v, b),
    ensures
        a == b,
{
    let kids = s.node(v).children;
    let i = choose|i: int| 0 <= i < kids.len() && kids[i] == a && is_text_node(s, a) && forall|j: int| 0 <= j < i ==> !is_text_node(s, #[trigger] kids[j]);
    let k = choose|k: int| 0 <= k < kids.len() && kids[k] == b && is_text_node(s, b) && forall|j: int| 0 <= j < k ==> !is_text_node(s, #[trigger] kids[j]);
    if i < k {
        assert(!is_text_node(s, kids[i]));
    } else if k < i {
        assert(!is_text_node(s, kids[k]));
    }
}

} // verus!
