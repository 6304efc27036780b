//! Locating the parts of a control by WAI-ARIA role and `data-slot` (through the role table).

use vstd::prelude::*;
use std::collections::HashSet;
use crate::node::NodeId;
use crate::scene::{
    below, descend_all, dfs_first, first_below, lemma_below_child, lemma_below_live,
    lemma_closed_covers, lemma_pop_expand, lemma_pop_visited, lemma_unvisited_shrinks,
    push_children_reversed, search_state, Scene,
};
use crate::strs::str_eq;

verus! {

/// Role of the popup list of a combobox.
pub const ROLE_LISTBOX: &'static str = "listbox";

/// Role of an entry of a listbox.
pub const ROLE_OPTION: &'static str = "option";

/// Role of a tab list container.
pub const ROLE_TABLIST: &'static str = "tablist";

/// Role of one tab of a tab list.
pub const ROLE_TAB: &'static str = "tab";

/// `data-slot` of the fill bar of a progress bar or slider.
pub const SLOT_FILL: &'static str = "fill";

/// `data-slot` of the thumb of a slider.
pub const SLOT_THUMB: &'static str = "thumb";

/// `data-slot` of the selected-value display of a dropdown.
pub const SLOT_VALUE: &'static str = "value";

/// Whether the role table gives `x` the role `role`.
pub open spec fn has_role(s: Scene, x: NodeId, role: Seq<char>) -> bool {
    &&& s.roles@.contains_key(x.0)
    &&& s.roles@[x.0].role is Some
    &&& s.roles@[x.0].role->0@ == role
}

/// Whether a node has role `role`.
pub open spec fn role_holder(s: Scene, role: Seq<char>) -> spec_fn(NodeId) -> bool {
    |x: NodeId| has_role(s, x, role)
}

/// Whether the role table gives `x` a `data-slot` entry named `slot`.
pub open spec fn has_slot(s: Scene, x: NodeId, slot: Seq<char>) -> bool {
    &&& s.roles@.contains_key(x.0)
    &&& exists|i: int|
        0 <= i < s.roles@[x.0].slots@.len() && (#[trigger] s.roles@[x.0].slots@[i]).0@ == slot
}

/// Whether `x` has role `role`.
fn role_is(scene: &Scene, x: NodeId, role: &str) -> (r: bool)
    ensures
        r == has_role(*scene, x, role@),
{
    match scene.roles.role_of(x) {
        Some(v) => str_eq(v, role),
        None => false,
    }
}

/// Whether `x` has a `data-slot` entry named `slot`.
fn slot_is(scene: &Scene, x: NodeId, slot: &str) -> (r: bool)
    ensures
        r == has_slot(*scene, x, slot@),
{
    match scene.roles.slot_of(x, slot) {
        Some(_) => true,
        None => false,
    }
}

/// The first direct child of `parent` with role `role` (`None` when there is none or `parent`
/// is dead). Only direct children are searched.
pub fn find_child_by_role(scene: &Scene, parent: NodeId, role: &str) -> (r: Option<NodeId>)
    ensures
        match r {
            Some(c) => scene.live(parent) && exists|i: int|
                0 <= i < scene.node(parent).children.len() && scene.node(parent).children[i] == c
                    && has_role(*scene, c, role@) && forall|j: int|
                    0 <= j < i ==> !has_role(*scene, #[trigger] scene.node(parent).children[j], role@),
            None => !scene.live(parent) || forall|j: int|
                0 <= j < scene.node(parent).children.len() ==> !has_role(
                    *scene,
                    #[trigger] scene.node(parent).children[j],
                    role@,
                ),
        },
{
    let kids = match scene.get(parent) {
        Some(n) => &n.children,
        None => {
            return None;
        },
    };
    let mut i: usize = 0;
    while i < kids.len()
        invariant
            scene.live(parent),
            kids@ == scene.node(parent).children,
            i <= kids@.len(),
            forall|j: int| 0 <= j < i ==> !has_role(*scene, #[trigger] kids@[j], role@),
        decreases kids@.len() - i,
    {
        if role_is(scene, kids[i], role) {
            return Some(kids[i]);
        }
        i = i + 1;
    }
    None
}

/// The first direct child of `parent` with a `data-slot` entry named `slot` (`None` when
/// there is none or `parent` is dead). Only direct children are searched.
pub fn find_child_by_slot(scene: &Scene, parent: NodeId, slot: &str) -> (r: Option<NodeId>)
    ensures
        match r {
            Some(c) => scene.live(parent) && exists|i: int|
                0 <= i < scene.node(parent).children.len() && scene.node(parent).children[i] == c
                    && has_slot(*scene, c, slot@) && forall|j: int|
                    0 <= j < i ==> !has_slot(*scene, #[trigger] scene.node(parent).children[j], slot@),
            None => !scene.live(parent) || forall|j: int|
                0 <= j < scene.node(parent).children.len() ==> !has_slot(
                    *scene,
                    #[trigger] scene.node(parent).children[j],
                    slot@,
                ),
        },
{
    let kids = match scene.get(parent) {
        Some(n) => &n.children,
        None => {
            return None;
        },
    };
    let mut i: usize = 0;
    while i < kids.len()
        invariant
            scene.live(parent),
            kids@ == scene.node(parent).children,
            i <= kids@.len(),
            forall|j: int| 0 <= j < i ==> !has_slot(*scene, #[trigger] kids@[j], slot@),
        decreases kids@.len() - i,
    {
        if slot_is(scene, kids[i], slot) {
            return Some(kids[i]);
        }
        i = i + 1;
    }
    None
}

/// The first node with role `role` in a depth-first pre-order walk of the subtree below
/// `root` (`root` itself excluded): the returned node lies below `root` and has the role;
/// `None` when no node below `root` has it, or `root` is dead.
pub fn find_child_by_role_recursive(scene: &Scene, root: NodeId, role: &str) -> (r: Option<NodeId>)
    requires
        scene.wf(),
    ensures
        r == first_below(*scene, root, descend_all(), role_holder(*scene, role@)),
        match r {
            Some(x) => below(*scene, root, x, descend_all()) && has_role(*scene, x, role@),
            None => !scene.live(root) || forall|x: NodeId|
                #[trigger] below(*scene, root, x, descend_all()) ==> !has_role(*scene, x, role@),
        },
{
    let kids = match scene.get(root) {
        Some(n) => &n.children,
        None => {
            return None;
        },
    };
    let ghost through = descend_all();
    let ghost found = role_holder(*scene, role@);
    let mut stack: Vec<NodeId> = Vec::new();
    push_children_reversed(&mut stack, kids);
    let mut visited: HashSet<u64> = HashSet::new();
    proof {
        assert(kids@ == scene.node(root).children);
        assert(stack@ =~= scene.node(root).children.reverse());
        assert(visited@ =~= Set::<u64>::empty());
        assert forall|i: int| 0 <= i < stack@.len() implies below(
            *scene,
            root,
            #[trigger] stack@[i],
            through,
        ) by {
            lemma_below_child(*scene, root, stack@[i], through);
        }
        assert(search_state(*scene, root, through, found, visited@, stack@));
    }
    while stack.len() > 0
        invariant
            search_state(*scene, root, through, found, visited@, stack@),
            through == descend_all(),
            found == role_holder(*scene, role@),
            dfs_first(*scene, stack@, visited@, through, found) == first_below(
                *scene,
                root,
                through,
                found,
            ),
        decreases scene.slots().dom().difference(visited@).len(), stack@.len(),
    {
        let ghost before = stack@;
        let x = match stack.pop() {
            Some(x) => x,
            None => {
                return None;
            },
        };
        proof {
            assert(before.last() == x);
            assert(stack@ == before.drop_last());
        }
        if visited.contains(&x.0) {
            proof {
                lemma_pop_visited(*scene, root, through, found, visited@, before);
            }
            continue;
        }
        if role_is(scene, x, role) {
            proof {
                assert(below(*scene, root, before[before.len() - 1], through));
                lemma_below_live(*scene, root, x, through);
            }
            return Some(x);
        }
        proof {
            lemma_below_live(*scene, root, x, through);
        }
        match scene.get(x) {
            Some(n) => {
                let ghost v0 = visited@;
                visited.insert(x.0);
                push_children_reversed(&mut stack, &n.children);
                proof {
                    lemma_pop_expand(*scene, root, through, found, v0, before, stack@);
                    lemma_unvisited_shrinks(*scene, v0, x.0);
                }
            },
            None => {
                proof {
                    assert(false);
                }
            },
        }
    }
    proof {
        assert forall|x: NodeId| #[trigger] below(*scene, root, x, through) implies !has_role(
            *scene,
            x,
            role@,
        ) by {
            lemma_closed_covers(*scene, root, through, visited@, x);
            assert(found(NodeId(x.0)) == false);
            lemma_below_live(*scene, root, x, through);
            assert(NodeId(x.0) == x);
        }
    }
    None
}

} // verus!
