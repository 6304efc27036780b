//! Keyboard routing of tab lists and the item set of roving-tabindex composites.

use vstd::prelude::*;
use crate::node::{ControlState, NodeId};
use crate::roles::{has_role, ROLE_TAB};
use crate::scene::{
    control_up, global_answer, nearest_up, norm_key, scope_anchor, subtree_answer, DisplayOverride,
    NodeView, Scene,
};
use crate::dynamic::{same_tables, set_display_override, with_display};
use crate::dropdown::{controls_kept, control_set, OWNER_SEARCH_STEPS};
use crate::event::{ControlEvent, EventKind};

verus! {

/// Main axis of a flex container (its `flex-direction`).
#[derive(Debug, Clone, Copy, PartialEq, Eq, Structural)]
pub enum FlexAxis {
    Row,
    RowReverse,
    Column,
    ColumnReverse,
}

/// A key as composite widgets see it.
#[derive(Debug, Clone, Copy, PartialEq, Eq, Structural)]
pub enum NavKey {
    Left,
    Right,
    Up,
    Down,
    Enter,
    Escape,
    Other,
}

/// Step a key moves the selection of a tab list laid out along `axis`: the arrows of the main
/// axis step back or forward (mirrored for the reversed directions); other keys do not route.
pub open spec fn key_delta(axis: FlexAxis, key: NavKey) -> Option<int> {
    match (axis, key) {
        (FlexAxis::Row, NavKey::Left) => Some(-1),
        (FlexAxis::Row, NavKey::Right) => Some(1),
        (FlexAxis::RowReverse, NavKey::Left) => Some(1),
        (FlexAxis::RowReverse, NavKey::Right) => Some(-1),
        (FlexAxis::Column, NavKey::Up) => Some(-1),
        (FlexAxis::Column, NavKey::Down) => Some(1),
        (FlexAxis::ColumnReverse, NavKey::Up) => Some(1),
        (FlexAxis::ColumnReverse, NavKey::Down) => Some(-1),
        _ => None,
    }
}

/// `v` clamped into `[lo, hi]`.
pub open spec fn clamp_int(v: int, lo: int, hi: int) -> int {
    if v < lo {
        lo
    } else if v > hi {
        hi
    } else {
        v
    }
}

/// The index a tab list selects after `key`: the current index stepped by the key's delta and
/// clamped to the tabs (no wrapping). `None` when the key does not route or there is no tab.
pub fn tablist_key_target(current: usize, axis: FlexAxis, key: NavKey, tab_count: usize) -> (r:
    Option<usize>)
    ensures
        match key_delta(axis, key) {
            None => r is None,
            Some(d) => if tab_count == 0 {
                r is None
            } else {
                r == Some(clamp_int(current + d, 0, tab_count - 1) as usize)
            },
        },
{
    let delta: i64 = match (axis, key) {
        (FlexAxis::Row, NavKey::Left) => -1,
        (FlexAxis::Row, NavKey::Right) => 1,
        (FlexAxis::RowReverse, NavKey::Left) => 1,
        (FlexAxis::RowReverse, NavKey::Right) => -1,
        (FlexAxis::Column, NavKey::Up) => -1,
        (FlexAxis::Column, NavKey::Down) => 1,
        (FlexAxis::ColumnReverse, NavKey::Up) => 1,
        (FlexAxis::ColumnReverse, NavKey::Down) => -1,
        _ => {
            return None;
        },
    };
    if tab_count == 0 {
        return None;
    }
    let last: usize = tab_count - 1;
    if delta < 0 {
        if current == 0 {
            Some(0)
        } else if current - 1 > last {
            Some(last)
        } else {
            Some(current - 1)
        }
    } else {
        if current >= last {
            Some(last)
        } else {
            Some(current + 1)
        }
    }
}

/// The item set of a roving-tabindex composite: its direct children with role `role`, in
/// document order (empty when the composite is dead).
pub fn roving_items(scene: &Scene, composite: NodeId, role: &str) -> (r: Vec<NodeId>)
    ensures
        scene.live(composite) ==> r@ == scene.node(composite).children.filter(
            |c: NodeId| has_role(*scene, c, role@),
        ),
        !scene.live(composite) ==> r@.len() == 0,
{
    let kids = match scene.get(composite) {
        Some(n) => &n.children,
        None => {
            return Vec::new();
        },
    };
    let ghost pred = |c: NodeId| has_role(*scene, c, role@);
    let mut out: Vec<NodeId> = Vec::new();
    let mut i: usize = 0;
    proof {
        reveal(Seq::filter);
        assert(kids@.subrange(0, 0) =~= Seq::<NodeId>::empty());
    }
    while i < kids.len()
        invariant
            i <= kids@.len(),
            pred == (|c: NodeId| has_role(*scene, c, role@)),
            out@ == kids@.subrange(0, i as int).filter(pred),
        decreases kids@.len() - i,
    {
        let c = kids[i];
        let ghost pre = kids@.subrange(0, i + 1);
        proof {
            assert(pre.drop_last() =~= kids@.subrange(0, i as int));
            assert(pre.last() == c);
            reveal(Seq::filter);
        }
        match scene.roles.role_of(c) {
            Some(v) => {
                if crate::strs::str_eq(v, role) {
                    out.push(c);
                }
            },
            None => {},
        }
        i = i + 1;
        proof {
            reveal(Seq::filter);
        }
    }
    proof {
        assert(kids@.subrange(0, kids@.len() as int) =~= kids@);
    }
    out
}

/// Whether `x` holds tab-list state.
pub open spec fn is_tablist(s: Scene, x: NodeId) -> bool {
    s.controls@.contains_key(x.0) && s.controls@[x.0] is TabList
}

/// The tab list owning `from`: the nearest tab list among its strict ancestors, looking at
/// `OWNER_SEARCH_STEPS` of them at most.
pub open spec fn tablist_owner_of(s: Scene, from: NodeId) -> Option<NodeId> {
    if s.live(from) {
        nearest_up(s, s.node(from).parent, |x: NodeId| is_tablist(s, x), (OWNER_SEARCH_STEPS - 1) as nat)
    } else {
        None
    }
}

/// The tabs of `x`: its direct children with role `tab`, in document order.
pub open spec fn tabs_of(s: Scene, x: NodeId) -> Seq<NodeId> {
    s.node(x).children.filter(|c: NodeId| has_role(s, c, ROLE_TAB@))
}

/// The tab list owning `from`: its nearest strict ancestor with tab-list state, looking at
/// `OWNER_SEARCH_STEPS` ancestors at most.
fn tablist_owner(scene: &Scene, from: NodeId) -> (r: Option<NodeId>)
    ensures
        r == tablist_owner_of(*scene, from),
{
    let ghost pred = |x: NodeId| is_tablist(*scene, x);
    let mut cur = match scene.get(from) {
        Some(n) => match n.parent {
            Some(p) => p,
            None => {
                return None;
            },
        },
        None => {
            return None;
        },
    };
    let mut i: usize = 0;
    while i < OWNER_SEARCH_STEPS
        invariant
            i < OWNER_SEARCH_STEPS,
            pred == (|x: NodeId| is_tablist(*scene, x)),
            nearest_up(*scene, Some(cur), pred, (OWNER_SEARCH_STEPS - 1 - i) as nat)
                == tablist_owner_of(*scene, from),
        decreases OWNER_SEARCH_STEPS - i,
    {
        proof {
            reveal_with_fuel(nearest_up, 2);
        }
        let n = match scene.get(cur) {
            Some(n) => n,
            None => {
                return None;
            },
        };
        assert(pred(cur) == is_tablist(*scene, cur));
        match scene.controls.get(cur) {
            Some(ControlState::TabList { .. }) => {
                return Some(cur);
            },
            _ => {},
        }
        if i + 1 == OWNER_SEARCH_STEPS {
            return None;
        }
        cur = match n.parent {
            Some(p) => p,
            None => {
                return None;
            },
        };
        i = i + 1;
    }
    None
}

/// The position of a tab among the tabs of the tab list owning it: `Some((owner, index))`;
/// `None` when `tab` does not have role `tab`, no tab list owns it, or it is not among the
/// owner's tabs.
pub fn tab_index(scene: &Scene, tab: NodeId) -> (r: Option<(NodeId, usize)>)
    ensures
        !has_role(*scene, tab, ROLE_TAB@) ==> r is None,
        has_role(*scene, tab, ROLE_TAB@) ==> match tablist_owner_of(*scene, tab) {
            None => r is None,
            Some(o) => if tabs_of(*scene, o).contains(tab) {
                r matches Some((o2, i)) && o2 == o && i == crate::dynamic::first_pos(tabs_of(*scene, o), tab)
            } else {
                r is None
            },
        },
{
    match scene.roles.role_of(tab) {
        Some(v) => {
            if !crate::strs::str_eq(v, ROLE_TAB) {
                return None;
            }
        },
        None => {
            return None;
        },
    }
    let owner = match tablist_owner(scene, tab) {
        Some(o) => o,
        None => {
            return None;
        },
    };
    proof {
        crate::scene::lemma_nearest_up(*scene, scene.node(tab).parent, |x: NodeId| is_tablist(*scene, x), (OWNER_SEARCH_STEPS - 1) as nat);
    }
    let tabs = roving_items(scene, owner, ROLE_TAB);
    assert(tabs@ == tabs_of(*scene, owner));
    let mut i: usize = 0;
    while i < tabs.len()
        invariant
            has_role(*scene, tab, ROLE_TAB@),
            tablist_owner_of(*scene, tab) == Some(owner),
            i <= tabs@.len(),
            tabs@ == tabs_of(*scene, owner),
            forall|j: int| 0 <= j < i ==> tabs@[j] != tab,
        decreases tabs@.len() - i,
    {
        if tabs[i].0 == tab.0 {
            proof {
                let l = tabs@;
                assert(l[i as int] == tab);
                assert(l.contains(tab));
                let k = crate::dynamic::first_pos(l, tab);
                assert(0 <= k < l.len() && l[k] == tab && forall|j: int| 0 <= j < k ==> l[j] != tab);
                if k < i {
                    assert(l[k] != tab);
                }
                if i < k {
                    assert(l[i as int] != tab);
                }
            }
            return Some((owner, i));
        }
        i = i + 1;
    }
    None
}

/// Whether a tab is the active one of the tab list owning it (its position equals the
/// owner's selection). `None` when `tab_index` finds no position for it.
pub fn tab_selected(scene: &Scene, tab: NodeId) -> (r: Option<bool>)
    ensures
        !has_role(*scene, tab, ROLE_TAB@) ==> r is None,
        has_role(*scene, tab, ROLE_TAB@) ==> match tablist_owner_of(*scene, tab) {
            None => r is None,
            Some(o) => if tabs_of(*scene, o).contains(tab) {
                r == Some(scene.controls@[o.0]->TabList_selected_index == crate::dynamic::first_pos(
                    tabs_of(*scene, o),
                    tab,
                ))
            } else {
                r is None
            },
        },
{
    let (owner, idx) = match tab_index(scene, tab) {
        Some(p) => p,
        None => {
            return None;
        },
    };
    proof {
        crate::scene::lemma_nearest_up(*scene, scene.node(tab).parent, |x: NodeId| is_tablist(*scene, x), (OWNER_SEARCH_STEPS - 1) as nat);
        assert(is_tablist(*scene, owner));
    }
    match scene.controls.get(owner) {
        Some(ControlState::TabList { selected_index }) => Some(*selected_index == idx),
        _ => None,
    }
}

/// Sets the selection of the tab list `tablist` to `new_index`, reporting a selection event
/// when it changes. A node without tab-list state is left alone and nothing is reported.
pub fn set_tablist_selected_index(scene: &mut Scene, tablist: NodeId, new_index: usize, out: &mut Vec<ControlEvent>)
    ensures
        is_tablist(*old(scene), tablist) ==> control_set(
            *old(scene),
            *final(scene),
            tablist,
            ControlState::TabList { selected_index: new_index },
        ),
        !is_tablist(*old(scene), tablist) ==> controls_kept(*old(scene), *final(scene)),
        final(out)@ == if is_tablist(*old(scene), tablist)
            && old(scene).controls@[tablist.0]->TabList_selected_index != new_index {
            old(out)@.push(ControlEvent { node: tablist, kind: EventKind::SelectionChanged(new_index) })
        } else {
            old(out)@
        },
{
    let ghost s0 = *scene;
    let changed = match scene.controls.get(tablist) {
        Some(ControlState::TabList { selected_index }) => *selected_index != new_index,
        _ => false,
    };
    match scene.controls.get_mut(tablist) {
        Some(st) => match st {
            ControlState::TabList { selected_index } => {
                *selected_index = new_index;
            },
            _ => {},
        },
        None => {},
    }
    proof {
        if !is_tablist(s0, tablist) {
            assert(scene.controls@ =~= s0.controls@);
        }
    }
    if changed {
        out.push(ControlEvent { node: tablist, kind: EventKind::SelectionChanged(new_index) });
    }
}

/// The nearest handle with tab-list state walking up from `start` (inclusive), looking at as
/// many handles as the scene has live nodes, plus one.
pub fn find_tablist_ancestor(scene: &Scene, start: Option<NodeId>) -> (r: Option<NodeId>)
    ensures
        r == control_up(*scene, start, |x: NodeId| is_tablist(*scene, x), scene.slots().len()),
{
    let ghost pred = |x: NodeId| is_tablist(*scene, x);
    let budget = scene.node_count();
    let mut fuel: usize = budget;
    let mut cur = start;
    loop
        invariant
            pred == (|x: NodeId| is_tablist(*scene, x)),
            control_up(*scene, cur, pred, fuel as nat) == control_up(
                *scene,
                start,
                pred,
                scene.slots().len(),
            ),
        decreases fuel,
    {
        let id = match cur {
            Some(id) => id,
            None => {
                return None;
            },
        };
        assert(pred(id) == is_tablist(*scene, id));
        match scene.controls.get(id) {
            Some(ControlState::TabList { .. }) => {
                return Some(id);
            },
            _ => {},
        }
        let n = match scene.get(id) {
            Some(n) => n,
            None => {
                return None;
            },
        };
        if fuel == 0 {
            return None;
        }
        fuel = fuel - 1;
        cur = n.parent;
    }
}

/// Keyboard routing of a tab list laid out along `axis`; returns whether the key was
/// consumed. A main-axis arrow moves the selection by its step (`key_delta`), clamped to the
/// tabs and without wrapping, and commits it at once (`set_tablist_selected_index`). A node
/// without tab-list state, a dead node, a key off the axis and a list without tabs are not
/// routed and change nothing.
pub fn on_tablist_key(scene: &mut Scene, tablist: NodeId, axis: FlexAxis, key: NavKey, out: &mut Vec<ControlEvent>) -> (r: bool)
    ensures
        ({
            let s = *old(scene);
            let routed = is_tablist(s, tablist) && s.live(tablist) && key_delta(axis, key) is Some
                && tabs_of(s, tablist).len() > 0;
            let cur = s.controls@[tablist.0]->TabList_selected_index;
            let n = tabs_of(s, tablist).len();
            &&& r == routed
            &&& !routed ==> controls_kept(s, *final(scene)) && final(out)@ == old(out)@
            &&& routed ==> {
                let new = clamp_int(cur + key_delta(axis, key)->0, 0, n - 1) as usize;
                &&& control_set(s, *final(scene), tablist, ControlState::TabList { selected_index: new })
                &&& final(out)@ == if cur != new {
                    old(out)@.push(ControlEvent { node: tablist, kind: EventKind::SelectionChanged(new) })
                } else {
                    old(out)@
                }
            }
        }),
{
    let ghost s0 = *scene;
    let current = match scene.controls.get(tablist) {
        Some(ControlState::TabList { selected_index }) => *selected_index,
        _ => {
            proof {
                assert(scene.controls@ =~= s0.controls@);
            }
            return false;
        },
    };
    if scene.get(tablist).is_none() {
        proof {
            assert(scene.controls@ =~= s0.controls@);
        }
        return false;
    }
    let count = roving_items(scene, tablist, ROLE_TAB).len();
    match tablist_key_target(current, axis, key, count) {
        None => {
            proof {
                assert(scene.controls@ =~= s0.controls@);
            }
            false
        },
        Some(new) => {
            set_tablist_selected_index(scene, tablist, new, out);
            true
        },
    }
}

/// Keyboard routing never moves a tab list's selection outside its tabs and never wraps:
/// the new index lies in `[0, n)` and is at most one step from the old one (clamped).
pub proof fn law_tablist_key_stays_in_range(cur: int, axis: FlexAxis, key: NavKey, n: int)
    requires
        n > 0,
        key_delta(axis, key) is Some,
    ensures
        0 <= clamp_int(cur + key_delta(axis, key)->0, 0, n - 1) < n,
        0 <= cur < n ==> {
            let new = clamp_int(cur + key_delta(axis, key)->0, 0, n - 1);
            -1 <= new - cur <= 1
        },
{
}

/// `r` is what looking up id `id` from `node` in its own lookup scope gives
/// (`Scene::find_node_by_id_in_own_scope`).
pub open spec fn scoped_answer(s: Scene, node: NodeId, id: Seq<char>, r: Option<NodeId>) -> bool {
    match scope_anchor(s, Some(node), s.slots().len()) {
        None => r is None,
        Some(None) => global_answer(s, id, r),
        Some(Some(a)) => subtree_answer(s, a, id, r),
    }
}

/// `r` is the panel of `tab`: nothing without `aria-controls`, else what looking its id up
/// in the tab's own scope gives.
pub open spec fn panel_of(s: Scene, tab: NodeId, r: Option<NodeId>) -> bool {
    if s.roles@.contains_key(tab.0) && s.roles@[tab.0].aria_controls is Some {
        scoped_answer(s, tab, s.roles@[tab.0].aria_controls->0@, r)
    } else {
        r is None
    }
}

/// The panels to show and hide for selection `sel`, given the panel found for each tab in
/// order: every found panel, visible exactly when its tab is the selected one.
pub open spec fn panel_plan(panels: Seq<Option<NodeId>>, sel: int) -> Seq<(NodeId, bool)>
    decreases panels.len(),
{
    if panels.len() == 0 {
        Seq::empty()
    } else {
        panel_plan(panels.drop_last(), sel) + match panels.last() {
            Some(p) => seq![(p, panels.len() - 1 == sel)],
            None => Seq::<(NodeId, bool)>::empty(),
        }
    }
}

/// Which tab panels of the tab list `tablist` show: for each tab in order whose
/// `aria-controls` id resolves in the tab's own lookup scope, its panel, visible exactly when
/// the tab is the selected one (the host hides the others). Empty for a node without
/// tab-list state or a dead one.
pub fn tab_panel_visibility(scene: &Scene, tablist: NodeId) -> (r: Vec<(NodeId, bool)>)
    requires
        scene.wf(),
    ensures
        !(is_tablist(*scene, tablist) && scene.live(tablist)) ==> r@.len() == 0,
        is_tablist(*scene, tablist) && scene.live(tablist) ==> exists|panels: Seq<Option<NodeId>>|
            panels.len() == tabs_of(*scene, tablist).len() && (forall|i: int|
                0 <= i < panels.len() ==> panel_of(*scene, #[trigger] tabs_of(*scene, tablist)[i], panels[i]))
                && r@ == panel_plan(panels, scene.controls@[tablist.0]->TabList_selected_index as int),
{
    let sel = match scene.controls.get(tablist) {
        Some(ControlState::TabList { selected_index }) => *selected_index,
        _ => {
            return Vec::new();
        },
    };
    if scene.get(tablist).is_none() {
        return Vec::new();
    }
    let tabs = roving_items(scene, tablist, ROLE_TAB);
    let ghost mut panels: Seq<Option<NodeId>> = Seq::empty();
    let mut out: Vec<(NodeId, bool)> = Vec::new();
    let mut i: usize = 0;
    while i < tabs.len()
        invariant
            scene.wf(),
            i <= tabs@.len(),
            panels.len() == i,
            forall|j: int| 0 <= j < i ==> panel_of(*scene, #[trigger] tabs@[j], panels[j]),
            out@ == panel_plan(panels, sel as int),
        decreases tabs@.len() - i,
    {
        let tab = tabs[i];
        let found = match scene.roles.get(tab) {
            Some(info) => match &info.aria_controls {
                Some(pid) => scene.find_node_by_id_in_own_scope(tab, pid.as_str()),
                None => None,
            },
            None => None,
        };
        let ghost prev = panels;
        let ghost before = out@;
        proof {
            panels = panels.push(found);
            assert(panels.drop_last() =~= prev);
            assert(panels.last() == found);
        }
        match found {
            Some(p) => {
                out.push((p, i == sel));
            },
            None => {},
        }
        proof {
            assert(panel_plan(panels, sel as int) == panel_plan(prev, sel as int) + match found {
                Some(p) => seq![(p, i == sel)],
                None => Seq::<(NodeId, bool)>::empty(),
            });
            assert(out@ =~= panel_plan(panels, sel as int));
        }
        i = i + 1;
    }
    proof {
        assert(tabs@ == tabs_of(*scene, tablist));
    }
    out
}


/// The node views after a panel plan is carried out in order: a panel to show hands its
/// display back to its style, a panel to hide is forced hidden (`with_display`); a handle of
/// no node is passed over.
pub open spec fn panels_applied(v: Map<u64, NodeView>, plan: Seq<(NodeId, bool)>) -> Map<u64, NodeView>
    decreases plan.len(),
{
    if plan.len() == 0 {
        v
    } else {
        let prev = panels_applied(v, plan.drop_last());
        let p = plan.last().0;
        if prev.contains_key(norm_key(p.0)) {
            with_display(
                prev,
                p,
                if plan.last().1 {
                    None
                } else {
                    Some(DisplayOverride::Hidden)
                },
            )
        } else {
            prev
        }
    }
}

/// Shows the panel of the selected tab of the tab list `tablist` and hides the panels of the
/// other tabs (`tab_panel_visibility`, in tab order): a shown panel hands its display back to
/// its style, a hidden one is forced hidden. A node without tab-list state or a dead one is
/// left alone.
pub fn sync_tab_panels(scene: &mut Scene, tablist: NodeId)
    requires
        old(scene).wf(),
    ensures
        final(scene).wf(),
        !(is_tablist(*old(scene), tablist) && old(scene).live(tablist)) ==> *final(scene) == *old(scene),
        is_tablist(*old(scene), tablist) && old(scene).live(tablist) ==> same_tables(*old(scene), *final(scene))
            && exists|panels: Seq<Option<NodeId>>|
            panels.len() == tabs_of(*old(scene), tablist).len() && (forall|i: int|
                0 <= i < panels.len() ==> panel_of(
                    *old(scene),
                    #[trigger] tabs_of(*old(scene), tablist)[i],
                    panels[i],
                )) && final(scene).view_nodes() == panels_applied(
                old(scene).view_nodes(),
                panel_plan(panels, old(scene).controls@[tablist.0]->TabList_selected_index as int),
            ),
{
    let ghost s0 = *scene;
    let plan = tab_panel_visibility(scene, tablist);
    if plan.len() == 0 {
        proof {
            if is_tablist(s0, tablist) && s0.live(tablist) {
                assert(plan@ =~= plan@.take(0));
            }
        }
        return ;
    }
    let mut i: usize = 0;
    proof {
        assert(plan@.take(0) =~= Seq::<(NodeId, bool)>::empty());
    }
    while i < plan.len()
        invariant
            i <= plan@.len(),
            scene.wf(),
            same_tables(s0, *scene),
            scene.view_nodes() == panels_applied(s0.view_nodes(), plan@.take(i as int)),
        decreases plan@.len() - i,
    {
        let (p, shown) = plan[i];
        let d = if shown {
            None
        } else {
            Some(DisplayOverride::Hidden)
        };
        let _ = set_display_override(scene, p, d);
        proof {
            assert(plan@.take(i + 1).drop_last() =~= plan@.take(i as int));
            assert(plan@.take(i + 1).last() == plan@[i as int]);
        }
        i = i + 1;
    }
    proof {
        assert(plan@.take(plan@.len() as int) =~= plan@);
    }
}

} // verus!
