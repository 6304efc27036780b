//! Pointer interaction with controls: which control a hit belongs to, whether it takes over
//! the gesture, the state changes of a press and a release, and the caret clock of text
//! inputs.

use vstd::prelude::*;
use crate::node::{ControlState, NodeFlags, NodeId, FLAG_DISABLED};
use crate::scene::{control_up, Scene};
use crate::event::{checked_to_u8, ControlEvent, EventKind};
use crate::dropdown::{
    close_dropdown, closed, commit_dropdown_selection, committed, control_set, controls_kept,
    dropdown_option_list, entry_ids, is_dropdown, lemma_option_ids_unique, listbox_of,
    listbox_options, open_dropdown, opened, prev_committed, selection_event,
};
use crate::roles::{find_child_by_role_recursive, ROLE_LISTBOX, ROLE_TAB};
use crate::tablist::{is_tablist, roving_items, set_tablist_selected_index, tabs_of};
use crate::edit::{
    advance_blink, display_chars, display_fits, display_to_value_byte, display_value_masked, edit_wf,
    masked, EditState, CURSOR_BLINK_PERIOD_MS,
};
use crate::text::{char_byte, chars_before, clamp_boundary, fits, floor_boundary};

verus! {

/// Whether `x` has control state.
pub open spec fn has_control(s: Scene, x: NodeId) -> bool {
    s.controls@.contains_key(x.0)
}

/// Whether `x` is a live node with the disabled flag.
pub open spec fn is_disabled(s: Scene, x: NodeId) -> bool {
    s.live(x) && s.node(x).flags & FLAG_DISABLED == FLAG_DISABLED
}

/// Whether the control state of `x` is a text input (single-line, multi-line or number).
pub open spec fn is_text_control(s: Scene, x: NodeId) -> bool {
    has_control(s, x) && (s.controls@[x.0] is TextField || s.controls@[x.0] is TextArea
        || s.controls@[x.0] is NumberField)
}

/// The control a pointer hit belongs to: the nearest handle with control state walking up
/// from `hit` (inclusive), looking at as many handles as the scene has live nodes, plus one.
pub fn find_control_at(scene: &Scene, hit: Option<NodeId>) -> (r: Option<NodeId>)
    ensures
        r == control_up(*scene, hit, |x: NodeId| has_control(*scene, x), scene.slots().len()),
{
    let ghost pred = |x: NodeId| has_control(*scene, x);
    let budget = scene.node_count();
    let mut fuel: usize = budget;
    let mut cur = hit;
    loop
        invariant
            pred == (|x: NodeId| has_control(*scene, x)),
            control_up(*scene, cur, pred, fuel as nat) == control_up(
                *scene,
                hit,
                pred,
                scene.slots().len(),
            ),
        decreases fuel,
    {
        let id = match cur {
            Some(id) => id,
            None => {
                return None;
            },
        };
        assert(pred(id) == has_control(*scene, id));
        if scene.controls.get(id).is_some() {
            return Some(id);
        }
        let n = match scene.get(id) {
            Some(n) => n,
            None => {
                return None;
            },
        };
        if fuel == 0 {
            return None;
        }
        fuel = fuel - 1;
        cur = n.parent;
    }
}

/// Whether a control takes over the pointer gesture (so that scrolling ancestors stand
/// back): an enabled slider with any pointer, an enabled text input with a mouse.
pub fn occupies_gesture(scene: &Scene, id: NodeId, is_mouse: bool) -> (r: bool)
    ensures
        r == (!is_disabled(*scene, id) && ((has_control(*scene, id) && scene.controls@[id.0] is Slider)
            || (is_mouse && is_text_control(*scene, id)))),
{
    let disabled = match scene.get(id) {
        Some(n) => n.interaction.flags.contains(NodeFlags::disabled()),
        None => false,
    };
    if disabled {
        return false;
    }
    match scene.controls.get(id) {
        Some(ControlState::Slider { .. }) => true,
        Some(ControlState::TextField(_)) | Some(ControlState::TextArea(_)) | Some(
            ControlState::NumberField { .. },
        ) => is_mouse,
        _ => false,
    }
}

/// `st` unchecked if it is a radio.
pub open spec fn unchecked(st: ControlState) -> ControlState {
    match st {
        ControlState::Radio { checked: _, name } => ControlState::Radio { checked: false, name },
        _ => st,
    }
}

/// Whether `st` is a radio of group `name`.
pub open spec fn in_group(st: ControlState, name: Seq<char>) -> bool {
    match st {
        ControlState::Radio { checked: _, name: n } => n@ == name,
        _ => false,
    }
}

/// The control states after selecting radio `id` of group `name`: `id` is checked (if it is
/// a radio), every other radio named `name` is unchecked, nothing else changes.
pub open spec fn radios_set(m: Map<u64, ControlState>, id: NodeId, name: Seq<char>) -> Map<u64, ControlState> {
    Map::new(
        |k: u64| m.contains_key(k),
        |k: u64|
            match m[k] {
                ControlState::Radio { checked: _, name: n } => if k == id.0 {
                    ControlState::Radio { checked: true, name: n }
                } else if n@ == name {
                    ControlState::Radio { checked: false, name: n }
                } else {
                    m[k]
                },
                _ => m[k],
            },
    )
}

/// `after` is `before` with the radio group `name` switched to `id` (`radios_set`).
pub open spec fn radio_selected(before: Scene, after: Scene, id: NodeId, name: Seq<char>) -> bool {
    &&& after.controls@ == radios_set(before.controls@, id, name)
    &&& after.nodes == before.nodes
    &&& after.roots == before.roots
    &&& after.focused_node == before.focused_node
    &&& after.roles == before.roles
    &&& after.text_contents == before.text_contents
    &&& after.image_srcs == before.image_srcs
}

/// Selects radio `id` in its group `name` (radios group by name anywhere in the scene):
/// every other radio of the group is unchecked, `id` is checked, and a checked event for
/// `id` is reported.
pub fn select_radio(scene: &mut Scene, id: NodeId, name: String, out: &mut Vec<ControlEvent>)
    ensures
        radio_selected(*old(scene), *final(scene), id, name@),
        final(out)@ == old(out)@.push(ControlEvent { node: id, kind: EventKind::CheckedChanged(1) }),
{
    let ghost s0 = *scene;
    let ghost m0 = scene.controls@;
    let mut others: Vec<NodeId> = Vec::new();
    {
        let pairs = scene.controls.iter();
        let mut i: usize = 0;
        while i < pairs.len()
            invariant
                m0 == scene.controls@,
                i <= pairs@.len(),
                forall|j: int|
                    0 <= j < pairs@.len() ==> m0.contains_key((#[trigger] pairs@[j]).0.0) && *pairs@[j].1
                        == m0[pairs@[j].0.0],
                forall|k: u64|
                    #[trigger] m0.contains_key(k) ==> exists|j: int|
                        0 <= j < pairs@.len() && (#[trigger] pairs@[j]).0.0 == k,
                forall|j: int|
                    0 <= j < others@.len() ==> m0.contains_key((#[trigger] others@[j]).0) && others@[j]
                        != id && in_group(m0[others@[j].0], name@),
                forall|j: int|
                    0 <= j < i ==> (pairs@[j].0 != id && in_group(m0[(#[trigger] pairs@[j]).0.0], name@))
                        ==> others@.contains(pairs@[j].0),
            decreases pairs@.len() - i,
        {
            let (nid, st) = pairs[i];
            let ghost prev = others@;
            match st {
                ControlState::Radio { name: n, .. } => {
                    if nid.0 != id.0 && *n == name {
                        others.push(nid);
                    }
                },
                _ => {},
            }
            proof {
                assert(pairs@[i as int] == (nid, st));
                assert(*st == m0[nid.0]);
                assert forall|x: NodeId| prev.contains(x) implies others@.contains(x) by {
                    let j = choose|j: int| 0 <= j < prev.len() && #[trigger] prev[j] == x;
                    assert(others@[j] == x);
                }
                if nid != id && in_group(m0[nid.0], name@) {
                    assert(others@[others@.len() - 1] == nid);
                }
            }
            i = i + 1;
        }
        proof {
            assert forall|k: u64|
                m0.contains_key(k) && k != id.0 && in_group(m0[k], name@) implies #[trigger] others@.contains(NodeId(k)) by {
                let j = choose|j: int| 0 <= j < pairs@.len() && (#[trigger] pairs@[j]).0.0 == k;
                assert(pairs@[j].0 == NodeId(k));
            }
        }
    }
    let mut i: usize = 0;
    while i < others.len()
        invariant
            i <= others@.len(),
            scene.nodes == s0.nodes,
            scene.roots == s0.roots,
            scene.focused_node == s0.focused_node,
            scene.roles == s0.roles,
            scene.text_contents == s0.text_contents,
            scene.image_srcs == s0.image_srcs,
            m0 == s0.controls@,
            scene.controls@.dom() == m0.dom(),
            forall|j: int|
                0 <= j < others@.len() ==> m0.contains_key((#[trigger] others@[j]).0) && others@[j]
                    != id && in_group(m0[others@[j].0], name@),
            forall|k: u64|
                #[trigger] scene.controls@.contains_key(k) ==> scene.controls@[k] == if others@.take(
                    i as int,
                ).contains(NodeId(k)) {
                    unchecked(m0[k])
                } else {
                    m0[k]
                },
        decreases others@.len() - i,
    {
        let oid = others[i];
        let ghost before = scene.controls@;
        match scene.controls.get_mut(oid) {
            Some(st) => match st {
                ControlState::Radio { checked, .. } => {
                    *checked = false;
                },
                _ => {},
            },
            None => {},
        }
        proof {
            assert forall|k: u64| #[trigger] scene.controls@.contains_key(k) implies scene.controls@[k]
                == if others@.take(i + 1).contains(NodeId(k)) {
                unchecked(m0[k])
            } else {
                m0[k]
            } by {
                if k == oid.0 {
                    assert(others@.take(i + 1)[i as int] == oid);
                } else {
                    if others@.take(i + 1).contains(NodeId(k)) {
                        let j = choose|j: int| 0 <= j < i + 1 && #[trigger] others@.take(i + 1)[j] == NodeId(k);
                        assert(others@.take(i as int)[j] == NodeId(k));
                    }
                    if others@.take(i as int).contains(NodeId(k)) {
                        let j = choose|j: int| 0 <= j < i && #[trigger] others@.take(i as int)[j] == NodeId(k);
                        assert(others@.take(i + 1)[j] == NodeId(k));
                    }
                }
            }
        }
        i = i + 1;
    }
    match scene.controls.get_mut(id) {
        Some(st) => match st {
            ControlState::Radio { checked, .. } => {
                *checked = true;
            },
            _ => {},
        },
        None => {},
    }
    proof {
        assert(others@.take(others@.len() as int) =~= others@);
        assert(scene.controls@ =~= radios_set(m0, id, name@)) by {
            assert forall|k: u64| #[trigger] scene.controls@.contains_key(k) implies scene.controls@[k]
                == radios_set(m0, id, name@)[k] by {
                if k != id.0 {
                    if in_group(m0[k], name@) {
                        assert(others@.contains(NodeId(k)));
                    } else {
                        if others@.contains(NodeId(k)) {
                            let j = choose|j: int| 0 <= j < others@.len() && #[trigger] others@[j] == NodeId(k);
                            assert(in_group(m0[others@[j].0], name@));
                        }
                    }
                } else {
                    if others@.contains(NodeId(k)) {
                        let j = choose|j: int| 0 <= j < others@.len() && #[trigger] others@[j] == NodeId(k);
                        assert(others@[j] != id);
                    }
                }
            }
        }
    }
    out.push(ControlEvent { node: id, kind: EventKind::CheckedChanged(checked_to_u8(true)) });
}

/// Position in `l`, from `i` on, of the first node the press hit (`hits`) that is not
/// disabled.
pub open spec fn first_enabled_hit(s: Scene, l: Seq<NodeId>, hits: Seq<NodeId>, i: int) -> Option<int>
    decreases l.len() - i,
{
    if 0 <= i < l.len() {
        if hits.contains(l[i]) && !is_disabled(s, l[i]) {
            Some(i)
        } else {
            first_enabled_hit(s, l, hits, i + 1)
        }
    } else {
        None
    }
}

/// Position in `l`, from `i` on, of the first node the press hit (`hits`).
pub open spec fn first_hit(l: Seq<NodeId>, hits: Seq<NodeId>, i: int) -> Option<int>
    decreases l.len() - i,
{
    if 0 <= i < l.len() {
        if hits.contains(l[i]) {
            Some(i)
        } else {
            first_hit(l, hits, i + 1)
        }
    } else {
        None
    }
}

/// The tabs of the tab list `x` (none for a dead node).
pub open spec fn live_tabs(s: Scene, x: NodeId) -> Seq<NodeId> {
    if s.live(x) {
        tabs_of(s, x)
    } else {
        Seq::empty()
    }
}

/// Whether the press hit the popup (the listbox) of the dropdown `select`.
pub open spec fn popup_hit(s: Scene, select: NodeId, hits: Seq<NodeId>) -> bool {
    match listbox_of(s, select) {
        Some(p) => hits.contains(p),
        None => false,
    }
}

/// Whether `hits` holds `x`.
fn hits_contain(hits: &[NodeId], x: NodeId) -> (r: bool)
    ensures
        r == hits@.contains(x),
{
    let mut j: usize = 0;
    while j < hits.len()
        invariant
            j <= hits@.len(),
            forall|m: int| 0 <= m < j ==> hits@[m] != x,
        decreases hits@.len() - j,
    {
        if hits[j] == x {
            assert(hits@[j as int] == x);
            return true;
        }
        j = j + 1;
    }
    false
}

/// The option of the dropdown `select` under a press: its index among all the dropdown's
/// options, for the first enabled option the press hit (`hits`).
fn option_under(scene: &Scene, select: NodeId, hits: &[NodeId]) -> (r: Option<usize>)
    requires
        scene.wf(),
    ensures
        r == match first_enabled_hit(*scene, listbox_options(*scene, select), hits@, 0) {
            Some(i) => Some(i as usize),
            None => None::<usize>,
        },
{
    let opts = dropdown_option_list(scene, select);
    let ghost l = listbox_options(*scene, select);
    proof {
        lemma_option_ids_unique(*scene, select, entry_ids(opts@));
    }
    let mut i: usize = 0;
    while i < opts.len()
        invariant
            i <= opts@.len(),
            l == listbox_options(*scene, select),
            l == entry_ids(opts@),
            l.len() == opts@.len(),
            forall|j: int|
                0 <= j < opts@.len() ==> (#[trigger] opts@[j]).1 == (scene.node(opts@[j].0).flags
                    & FLAG_DISABLED == FLAG_DISABLED),
            forall|j: int| 0 <= j < l.len() ==> scene.live(#[trigger] l[j]),
            first_enabled_hit(*scene, l, hits@, 0) == first_enabled_hit(*scene, l, hits@, i as int),
        decreases opts@.len() - i,
    {
        let (cid, disabled) = opts[i];
        proof {
            assert(l[i as int] == cid);
        }
        if !disabled && hits_contain(hits, cid) {
            proof {
                assert(!is_disabled(*scene, l[i as int]));
                assert(first_enabled_hit(*scene, l, hits@, i as int) == Some(i as int));
            }
            return Some(i);
        }
        i = i + 1;
    }
    None
}

/// The tab of the tab list `tablist` under a press: its index among the tabs, for the first
/// tab the press hit (`hits`).
fn tab_under(scene: &Scene, tablist: NodeId, hits: &[NodeId]) -> (r: Option<usize>)
    ensures
        r == match first_hit(live_tabs(*scene, tablist), hits@, 0) {
            Some(i) => Some(i as usize),
            None => None::<usize>,
        },
{
    let tabs = roving_items(scene, tablist, ROLE_TAB);
    let ghost l = live_tabs(*scene, tablist);
    proof {
        if scene.live(tablist) {
            assert(tabs@ == tabs_of(*scene, tablist));
        } else {
            assert(tabs@ =~= l);
        }
    }
    let mut i: usize = 0;
    while i < tabs.len()
        invariant
            i <= tabs@.len(),
            l == live_tabs(*scene, tablist),
            l == tabs@,
            first_hit(l, hits@, 0) == first_hit(l, hits@, i as int),
        decreases tabs@.len() - i,
    {
        if hits_contain(hits, tabs[i]) {
            proof {
                assert(first_hit(l, hits@, i as int) == Some(i as int));
            }
            return Some(i);
        }
        i = i + 1;
    }
    None
}

/// A press on the control `id`, given the nodes whose on-screen box holds the press point
/// (`hits`, from the host's geometry). Disabled controls and nodes without control state
/// ignore it: a toggle flips and reports its new checked state; a radio is selected in its
/// group (`select_radio`); a slider starts dragging (its value follows from the host's
/// geometry); a closed dropdown opens, an open one commits the first enabled option the press
/// hit, or, when it hit none, closes as a cancel unless the press is on its popup; a tab list
/// selects the first of its tabs the press hit. Text inputs and progress bars change nothing
/// here.
pub fn on_pointer_down(scene: &mut Scene, id: NodeId, hits: &[NodeId]) -> (r: Vec<ControlEvent>)
    requires
        old(scene).wf(),
    ensures
        ({
            let s = *old(scene);
            let f = *final(scene);
            let st = s.controls@[id.0];
            &&& (!has_control(s, id) || is_disabled(s, id)) ==> controls_kept(s, f) && r@.len() == 0
            &&& has_control(s, id) && !is_disabled(s, id) ==> match st {
                ControlState::Toggle { checked } => control_set(
                    s,
                    f,
                    id,
                    ControlState::Toggle { checked: !checked },
                ) && r@ == seq![ControlEvent { node: id, kind: EventKind::CheckedChanged(if !checked { 1u8 } else { 0u8 }) }],
                ControlState::Radio { checked: _, name } => radio_selected(s, f, id, name@) && r@ == seq![ControlEvent { node: id, kind: EventKind::CheckedChanged(1u8) }],
                ControlState::Slider { value_bits, min_bits, max_bits, step_bits, dragging: _ } => control_set(
                    s,
                    f,
                    id,
                    ControlState::Slider { value_bits, min_bits, max_bits, step_bits, dragging: true },
                ) && r@.len() == 0,
                ControlState::Dropdown { open, .. } => if !open {
                    control_set(s, f, id, opened(st)) && r@.len() == 0
                } else {
                    match first_enabled_hit(s, listbox_options(s, id), hits@, 0) {
                        Some(i) => control_set(s, f, id, committed(st, i as usize)) && r@ == if i as usize
                            != prev_committed(st) {
                            seq![selection_event(id, i as usize)]
                        } else {
                            Seq::<ControlEvent>::empty()
                        },
                        None => if !popup_hit(s, id, hits@) {
                            control_set(s, f, id, closed(st)) && r@.len() == 0
                        } else {
                            controls_kept(s, f) && r@.len() == 0
                        },
                    }
                },
                ControlState::TabList { selected_index } => match first_hit(live_tabs(s, id), hits@, 0) {
                    Some(i) => control_set(s, f, id, ControlState::TabList { selected_index: i as usize })
                        && r@ == if selected_index != i as usize {
                        seq![ControlEvent { node: id, kind: EventKind::SelectionChanged(i as usize) }]
                    } else {
                        Seq::<ControlEvent>::empty()
                    },
                    None => controls_kept(s, f) && r@.len() == 0,
                },
                _ => controls_kept(s, f) && r@.len() == 0,
            }
        }),
{
    let ghost s0 = *scene;
    let mut out: Vec<ControlEvent> = Vec::new();
    let disabled = match scene.get(id) {
        Some(n) => n.interaction.flags.contains(NodeFlags::disabled()),
        None => false,
    };
    if disabled {
        proof {
            assert(scene.controls@ =~= s0.controls@);
        }
        return out;
    }
    match scene.controls.get(id) {
        None => {
            return out;
        },
        Some(ControlState::Toggle { checked }) => {
            let c = *checked;
            scene.controls.ensure(id, ControlState::Toggle { checked: !c });
            out.push(ControlEvent { node: id, kind: EventKind::CheckedChanged(checked_to_u8(!c)) });
        },
        Some(ControlState::Radio { name, .. }) => {
            let group = name.clone();
            select_radio(scene, id, group, &mut out);
        },
        Some(ControlState::Slider { .. }) => {
            match scene.controls.get_mut(id) {
                Some(st) => match st {
                    ControlState::Slider { dragging, .. } => {
                        *dragging = true;
                    },
                    _ => {},
                },
                None => {},
            }
        },
        Some(ControlState::Dropdown { open, .. }) => {
            let is_open = *open;
            if is_open {
                match option_under(scene, id, hits) {
                    Some(i) => {
                        commit_dropdown_selection(scene, id, i, &mut out);
                    },
                    None => {
                        let on_popup = match find_child_by_role_recursive(scene, id, ROLE_LISTBOX) {
                            Some(p) => hits_contain(hits, p),
                            None => false,
                        };
                        if !on_popup {
                            close_dropdown(scene, id);
                        }
                    },
                }
            } else {
                open_dropdown(scene, id);
            }
        },
        Some(ControlState::TabList { .. }) => {
            match tab_under(scene, id, hits) {
                Some(i) => {
                    set_tablist_selected_index(scene, id, i, &mut out);
                },
                None => {},
            }
        },
        Some(_) => {},
    }
    out
}

/// What a pointer move over a control drives.
#[derive(Debug, Clone, Copy, PartialEq, Eq, Structural)]
pub enum MoveTarget {
    /// The value of a dragging slider follows the pointer.
    SliderValue,
    /// The selection of a text input follows a mouse drag (`on_text_pointer_drag`).
    TextSelection,
    /// The move changes nothing.
    Nothing,
}

/// What a pointer move over the control `id` drives: the value of a slider that is being
/// dragged; else, for a mouse, the selection of an enabled text input; else nothing (a touch
/// drag over a text input pans instead, and a disabled one takes no drag).
pub fn pointer_move_target(scene: &Scene, id: NodeId, is_mouse: bool) -> (r: MoveTarget)
    ensures
        r == if has_control(*scene, id) && scene.controls@[id.0] matches ControlState::Slider {
            dragging: true,
            ..
        } {
            MoveTarget::SliderValue
        } else if is_mouse && is_text_control(*scene, id) && !is_disabled(*scene, id) {
            MoveTarget::TextSelection
        } else {
            MoveTarget::Nothing
        },
{
    let disabled = match scene.get(id) {
        Some(n) => n.interaction.flags.contains(NodeFlags::disabled()),
        None => false,
    };
    match scene.controls.get(id) {
        Some(ControlState::Slider { dragging, .. }) => {
            if *dragging {
                MoveTarget::SliderValue
            } else {
                MoveTarget::Nothing
            }
        },
        Some(ControlState::TextField(_)) | Some(ControlState::TextArea(_)) | Some(
            ControlState::NumberField { .. },
        ) => {
            if is_mouse && !disabled {
                MoveTarget::TextSelection
            } else {
                MoveTarget::Nothing
            }
        },
        _ => MoveTarget::Nothing,
    }
}

/// A release on the control `id`: a dragging slider stops dragging and reports the value it
/// settled on; anything else changes nothing and reports nothing.
pub fn on_pointer_up(scene: &mut Scene, id: NodeId) -> (r: Vec<ControlEvent>)
    ensures
        ({
            let s = *old(scene);
            let f = *final(scene);
            match s.controls@.get(id.0) {
                Some(ControlState::Slider { value_bits, min_bits, max_bits, step_bits, dragging: true }) => {
                    &&& control_set(
                        s,
                        f,
                        id,
                        ControlState::Slider { value_bits, min_bits, max_bits, step_bits, dragging: false },
                    )
                    &&& r@ == seq![ControlEvent { node: id, kind: EventKind::ChangeCommitted(value_bits) }]
                },
                _ => controls_kept(s, f) && r@.len() == 0,
            }
        }),
{
    let ghost s0 = *scene;
    let mut out: Vec<ControlEvent> = Vec::new();
    let value = match scene.controls.get(id) {
        Some(ControlState::Slider { value_bits, dragging, .. }) => {
            if !*dragging {
                return out;
            }
            *value_bits
        },
        _ => {
            return out;
        },
    };
    match scene.controls.get_mut(id) {
        Some(st) => match st {
            ControlState::Slider { dragging, .. } => {
                *dragging = false;
            },
            _ => {},
        },
        None => {},
    }
    out.push(ControlEvent { node: id, kind: EventKind::ChangeCommitted(value) });
    out
}

/// After a radio is selected, it is the one checked radio of its group: every other radio
/// named like it is unchecked, and radios of other groups and other controls are untouched.
pub proof fn law_radio_group_exclusive(m: Map<u64, ControlState>, id: NodeId, name: Seq<char>, k: u64)
    requires
        m.contains_key(id.0),
        in_group(m[id.0], name),
        m.contains_key(k),
    ensures
        radios_set(m, id, name)[id.0] matches ControlState::Radio { checked: true, .. },
        k != id.0 && in_group(m[k], name) ==> radios_set(m, id, name)[k] matches ControlState::Radio {
            checked: false,
            ..
        },
        k != id.0 && !in_group(m[k], name) ==> radios_set(m, id, name)[k] == m[k],
        radios_set(m, id, name).dom() == m.dom(),
{
    assert(radios_set(m, id, name).dom() =~= m.dom());
}


/// `e` after `advance_blink` with the given focus and elapsed time.
pub open spec fn blink_step(e: EditState, focused: bool, dt_ms: u32) -> EditState {
    if !focused {
        EditState { cursor_visible: false, ..e }
    } else if e.cursor_timer_ms + dt_ms >= CURSOR_BLINK_PERIOD_MS {
        EditState { cursor_timer_ms: 0, cursor_visible: !e.cursor_visible, ..e }
    } else {
        EditState { cursor_timer_ms: (e.cursor_timer_ms + dt_ms) as u32, ..e }
    }
}

/// A focused caret after blink steps of `dts` milliseconds, in order.
pub open spec fn blink_run(e: EditState, dts: Seq<u32>) -> EditState
    decreases dts.len(),
{
    if dts.len() == 0 {
        e
    } else {
        blink_step(blink_run(e, dts.drop_last()), true, dts.last())
    }
}

/// Total of a list of elapsed times.
pub open spec fn total_ms(dts: Seq<u32>) -> int
    decreases dts.len(),
{
    if dts.len() == 0 {
        0
    } else {
        total_ms(dts.drop_last()) + dts.last()
    }
}

/// When the caret of a focused input flips, its blink clock restarts at zero; when it does
/// not, the clock has moved on by exactly the elapsed time, and is still short of the period.
pub proof fn law_blink_flip_restarts_clock(e: EditState, dt_ms: u32)
    ensures
        blink_step(e, true, dt_ms).cursor_visible != e.cursor_visible ==> blink_step(e, true, dt_ms).cursor_timer_ms == 0,
        blink_step(e, true, dt_ms).cursor_visible == e.cursor_visible ==> blink_step(e, true, dt_ms).cursor_timer_ms
            == e.cursor_timer_ms + dt_ms && e.cursor_timer_ms + dt_ms < CURSOR_BLINK_PERIOD_MS,
{
}

/// An input without focus hides its caret and leaves its blink clock alone.
pub proof fn law_blink_unfocused_hides(e: EditState, dt_ms: u32)
    ensures
        !blink_step(e, false, dt_ms).cursor_visible,
        blink_step(e, false, dt_ms).cursor_timer_ms == e.cursor_timer_ms,
{
}

/// Two flips of a focused caret lie at least `CURSOR_BLINK_PERIOD_MS` of advanced time
/// apart: after a flip, any run of steps whose times add up to less than the period leaves
/// the caret as the flip left it, with its clock at the time advanced since.
pub proof fn law_blink_flips_apart(e: EditState, dt_ms: u32, dts: Seq<u32>)
    requires
        blink_step(e, true, dt_ms).cursor_visible != e.cursor_visible,
        total_ms(dts) < CURSOR_BLINK_PERIOD_MS,
    ensures
        blink_run(blink_step(e, true, dt_ms), dts).cursor_visible == blink_step(e, true, dt_ms).cursor_visible,
        blink_run(blink_step(e, true, dt_ms), dts).cursor_timer_ms == total_ms(dts),
    decreases dts.len(),
{
    if dts.len() > 0 {
        lemma_total_prefix(dts);
        law_blink_flips_apart(e, dt_ms, dts.drop_last());
    }
}

/// A list's total is at least that of the list without its last time.
proof fn lemma_total_prefix(dts: Seq<u32>)
    requires
        dts.len() > 0,
    ensures
        total_ms(dts.drop_last()) <= total_ms(dts),
{
}

/// A control state after its caret clock advanced (only text inputs have one).
pub open spec fn blinked(st: ControlState, focused: bool, dt_ms: u32) -> ControlState {
    match st {
        ControlState::TextField(e) => ControlState::TextField(blink_step(e, focused, dt_ms)),
        ControlState::TextArea(e) => ControlState::TextArea(blink_step(e, focused, dt_ms)),
        ControlState::NumberField { edit, min_bits, max_bits, step_bits } => ControlState::NumberField {
            edit: blink_step(edit, focused, dt_ms),
            min_bits,
            max_bits,
            step_bits,
        },
        _ => st,
    }
}

/// Advances the caret blink of every text input by `dt_ms` (`advance_blink`): the focused
/// one blinks, the others hide their caret. Nothing else changes.
pub fn advance_cursor_blink(scene: &mut Scene, dt_ms: u32)
    ensures
        final(scene).controls@ == Map::new(
            |k: u64| old(scene).controls@.contains_key(k),
            |k: u64| blinked(old(scene).controls@[k], old(scene).focused_node == Some(NodeId(k)), dt_ms),
        ),
        forall|k: u64|
            #![trigger final(scene).controls@[k]]
            old(scene).controls@.contains_key(k) && old(scene).focused_node == Some(NodeId(k))
                && edit_of(old(scene).controls@[k]) is Some ==> {
                let e0 = edit_of(old(scene).controls@[k])->0;
                let e1 = edit_of(final(scene).controls@[k])->0;
                &&& edit_of(final(scene).controls@[k]) is Some
                &&& e1.cursor_visible != e0.cursor_visible <==> e0.cursor_timer_ms + dt_ms
                    >= CURSOR_BLINK_PERIOD_MS
                &&& e1.cursor_visible != e0.cursor_visible ==> e1.cursor_timer_ms == 0
                &&& e1.cursor_visible == e0.cursor_visible ==> e1.cursor_timer_ms == e0.cursor_timer_ms
                    + dt_ms
            },
        final(scene).nodes == old(scene).nodes,
        final(scene).roots == old(scene).roots,
        final(scene).focused_node == old(scene).focused_node,
        final(scene).roles == old(scene).roles,
        final(scene).text_contents == old(scene).text_contents,
        final(scene).image_srcs == old(scene).image_srcs,
{
    let ghost s0 = *scene;
    let ghost m0 = scene.controls@;
    let focused = scene.focused_node;
    let mut ids: Vec<NodeId> = Vec::new();
    {
        let pairs = scene.controls.iter();
        let mut i: usize = 0;
        while i < pairs.len()
            invariant
                m0 == scene.controls@,
                i <= pairs@.len(),
                ids@.len() == i,
                forall|j: int| 0 <= j < i ==> (#[trigger] ids@[j]) == pairs@[j].0,
            decreases pairs@.len() - i,
        {
            ids.push(pairs[i].0);
            i = i + 1;
        }
        proof {
            assert forall|j: int| 0 <= j < ids@.len() implies m0.contains_key((#[trigger] ids@[j]).0) by {
                assert(ids@[j] == pairs@[j].0);
            }
            assert forall|k: u64| #[trigger] m0.contains_key(k) implies ids@.contains(NodeId(k)) by {
                let j = choose|j: int| 0 <= j < pairs@.len() && (#[trigger] pairs@[j]).0.0 == k;
                assert(ids@[j] == NodeId(k));
            }
            assert forall|a: int, b: int| 0 <= a < b < ids@.len() implies (#[trigger] ids@[a]) != (#[trigger] ids@[b]) by {
                assert(ids@[a] == pairs@[a].0);
                assert(ids@[b] == pairs@[b].0);
            }
        }
    }
    let mut i: usize = 0;
    while i < ids.len()
        invariant
            i <= ids@.len(),
            focused == s0.focused_node,
            scene.nodes == s0.nodes,
            scene.roots == s0.roots,
            scene.focused_node == s0.focused_node,
            scene.roles == s0.roles,
            scene.text_contents == s0.text_contents,
            scene.image_srcs == s0.image_srcs,
            m0 == s0.controls@,
            scene.controls@.dom() == m0.dom(),
            forall|j: int| 0 <= j < ids@.len() ==> m0.contains_key((#[trigger] ids@[j]).0),
            forall|k: u64| #[trigger] m0.contains_key(k) ==> ids@.contains(NodeId(k)),
            forall|a: int, b: int| 0 <= a < b < ids@.len() ==> (#[trigger] ids@[a]) != (#[trigger] ids@[b]),
            forall|k: u64|
                #[trigger] scene.controls@.contains_key(k) ==> scene.controls@[k] == if ids@.take(
                    i as int,
                ).contains(NodeId(k)) {
                    blinked(m0[k], s0.focused_node == Some(NodeId(k)), dt_ms)
                } else {
                    m0[k]
                },
        decreases ids@.len() - i,
    {
        let id = ids[i];
        let is_focused = match focused {
            Some(f) => f.0 == id.0,
            None => false,
        };
        assert(is_focused == (s0.focused_node == Some(id)));
        proof {
            assert(!ids@.take(i as int).contains(id)) by {
                if ids@.take(i as int).contains(id) {
                    let j = choose|j: int| 0 <= j < i && #[trigger] ids@.take(i as int)[j] == id;
                    assert(ids@[j] == ids@[i as int]);
                }
            }
        }
        match scene.controls.get_mut(id) {
            Some(st) => match st {
                ControlState::TextField(e) => {
                    advance_blink(e, is_focused, dt_ms);
                },
                ControlState::TextArea(e) => {
                    advance_blink(e, is_focused, dt_ms);
                },
                ControlState::NumberField { edit, .. } => {
                    advance_blink(edit, is_focused, dt_ms);
                },
                _ => {},
            },
            None => {},
        }
        proof {
            assert forall|k: u64| #[trigger] scene.controls@.contains_key(k) implies scene.controls@[k]
                == if ids@.take(i + 1).contains(NodeId(k)) {
                blinked(m0[k], s0.focused_node == Some(NodeId(k)), dt_ms)
            } else {
                m0[k]
            } by {
                if k == id.0 {
                    assert(ids@.take(i + 1)[i as int] == id);
                } else {
                    if ids@.take(i + 1).contains(NodeId(k)) {
                        let j = choose|j: int| 0 <= j < i + 1 && #[trigger] ids@.take(i + 1)[j] == NodeId(k);
                        assert(ids@.take(i as int)[j] == NodeId(k));
                    }
                    if ids@.take(i as int).contains(NodeId(k)) {
                        let j = choose|j: int| 0 <= j < i && #[trigger] ids@.take(i as int)[j] == NodeId(k);
                        assert(ids@.take(i + 1)[j] == NodeId(k));
                    }
                }
            }
        }
        i = i + 1;
    }
    proof {
        assert(ids@.take(ids@.len() as int) =~= ids@);
        assert(scene.controls@ =~= Map::new(
            |k: u64| m0.contains_key(k),
            |k: u64| blinked(m0[k], s0.focused_node == Some(NodeId(k)), dt_ms),
        ));
    }
}

/// The edit state of a text input's control state.
pub open spec fn edit_of(st: ControlState) -> Option<EditState> {
    match st {
        ControlState::TextField(e) => Some(e),
        ControlState::TextArea(e) => Some(e),
        ControlState::NumberField { edit, .. } => Some(edit),
        _ => None,
    }
}

/// `st` with its edit state replaced by `e` (only text inputs change).
pub open spec fn with_edit(st: ControlState, e: EditState) -> ControlState {
    match st {
        ControlState::TextField(_) => ControlState::TextField(e),
        ControlState::TextArea(_) => ControlState::TextArea(e),
        ControlState::NumberField { edit: _, min_bits, max_bits, step_bits } => ControlState::NumberField {
            edit: e,
            min_bits,
            max_bits,
            step_bits,
        },
        _ => st,
    }
}

/// The text an input shows: its value with the composition spliced in, masked by `mask`.
pub open spec fn shown_text(e: EditState, mask: Option<char>) -> Seq<char> {
    match mask {
        None => display_chars(e),
        Some(m) => masked(display_chars(e), m),
    }
}

/// Whether the edit state of `x` (if it is a text input) is well formed and its shown text
/// has a byte length `usize` can hold.
pub open spec fn text_input_ok(s: Scene, x: NodeId, mask: Option<char>) -> bool {
    has_control(s, x) ==> match edit_of(s.controls@[x.0]) {
        Some(e) => edit_wf(e) && display_fits(e) && fits(shown_text(e, mask)),
        None => true,
    }
}

/// The value offset a hit at byte `display_off` of the shown text lands on: mapped back into
/// the value by character position and moved onto a boundary.
pub open spec fn hit_value_offset(e: EditState, mask: Option<char>, display_off: int) -> int {
    let d = shown_text(e, mask);
    floor_boundary(e.value@, char_byte(e.value@, chars_before(d, floor_boundary(d, display_off))))
}

/// `e` after a pointer hit at byte `display_off` of its shown text: the caret moves there
/// (the anchor too unless `keep_anchor`), the remembered column is dropped and the caret is
/// shown with its blink restarted.
pub open spec fn caret_placed(e: EditState, mask: Option<char>, display_off: int, keep_anchor: bool) -> EditState {
    let off = hit_value_offset(e, mask, display_off) as usize;
    EditState {
        cursor: off,
        anchor: if keep_anchor { e.anchor } else { off },
        ideal_cursor_valid: false,
        cursor_visible: true,
        cursor_timer_ms: 0,
        ..e
    }
}

/// Places the caret of `e` for a pointer hit (see `caret_placed`).
fn place_caret(e: &mut EditState, mask: Option<char>, display_off: usize, keep_anchor: bool)
    requires
        edit_wf(*old(e)),
        display_fits(*old(e)),
        fits(shown_text(*old(e), mask)),
    ensures
        *final(e) == caret_placed(*old(e), mask, display_off as int, keep_anchor),
{
    let (display, _) = display_value_masked(e, mask);
    let off = clamp_boundary(e.value.as_str(), display_to_value_byte(display.as_str(), e.value.as_str(), display_off));
    e.cursor = off;
    if !keep_anchor {
        e.anchor = off;
    }
    e.ideal_cursor_valid = false;
    e.cursor_visible = true;
    e.cursor_timer_ms = 0;
}

/// A press on the text input `id` whose hit test (with the host's text layout) found byte
/// `display_off` of the shown text (masked by `mask`): the caret and the anchor move to the
/// matching value offset (`caret_placed`). A node that is not a text input is left alone.
pub fn on_text_pointer_down(scene: &mut Scene, id: NodeId, mask: Option<char>, display_off: usize)
    requires
        text_input_ok(*old(scene), id, mask),
    ensures
        match (if has_control(*old(scene), id) { edit_of(old(scene).controls@[id.0]) } else { None }) {
            Some(e) => control_set(
                *old(scene),
                *final(scene),
                id,
                with_edit(old(scene).controls@[id.0], caret_placed(e, mask, display_off as int, false)),
            ),
            None => controls_kept(*old(scene), *final(scene)),
        },
{
    let ghost s0 = *scene;
    match scene.controls.get_mut(id) {
        Some(st) => match st {
            ControlState::TextField(e) => place_caret(e, mask, display_off, false),
            ControlState::TextArea(e) => place_caret(e, mask, display_off, false),
            ControlState::NumberField { edit, .. } => place_caret(edit, mask, display_off, false),
            _ => {},
        },
        None => {},
    }
    proof {
        if !(has_control(s0, id) && edit_of(s0.controls@[id.0]) is Some) {
            assert(scene.controls@ =~= s0.controls@);
        }
    }
}

/// A mouse drag over the text input `id` reaching byte `display_off` of the shown text:
/// the caret follows while the anchor stays where the press put it, extending the selection
/// (`caret_placed`). A node that is not a text input is left alone.
pub fn on_text_pointer_drag(scene: &mut Scene, id: NodeId, mask: Option<char>, display_off: usize)
    requires
        text_input_ok(*old(scene), id, mask),
    ensures
        match (if has_control(*old(scene), id) { edit_of(old(scene).controls@[id.0]) } else { None }) {
            Some(e) => control_set(
                *old(scene),
                *final(scene),
                id,
                with_edit(old(scene).controls@[id.0], caret_placed(e, mask, display_off as int, true)),
            ),
            None => controls_kept(*old(scene), *final(scene)),
        },
{
    let ghost s0 = *scene;
    match scene.controls.get_mut(id) {
        Some(st) => match st {
            ControlState::TextField(e) => place_caret(e, mask, display_off, true),
            ControlState::TextArea(e) => place_caret(e, mask, display_off, true),
            ControlState::NumberField { edit, .. } => place_caret(edit, mask, display_off, true),
            _ => {},
        },
        None => {},
    }
    proof {
        if !(has_control(s0, id) && edit_of(s0.controls@[id.0]) is Some) {
            assert(scene.controls@ =~= s0.controls@);
        }
    }
}

} // verus!
