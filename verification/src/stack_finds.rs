//! What is found in a stack of Huts: consoles, the outputs they are on, and where
//! client surfaces are on screen.
use vstd::prelude::*;

use crate::console_hut::{lemma_main_index, lemma_placed_index, HutView};
use crate::graph::{law_path_unfolds, NodeId};
use crate::graph_nodes::NodeView;
use crate::hut::{pane_rect, Axis};
use crate::stack_exit::lemma_first_console;
use crate::stack_geometry::{pane_on_screen, rect_in_console, LeafRect};
use crate::stack_model::{
    clamped, consoles, first_console, first_holder, first_parent, first_slot_with,
    node_child_removed, replaced, tops_of, SlotView, StackView,
};
use crate::tree::{acyclic, kids_of, lemma_step_ends, Kids};

verus! {

/// The console with a number is found at its first place among some nodes; if it
/// is nowhere there, it is not found.
pub proof fn law_first_console_is_found(
    nodes: Map<NodeId, NodeView>,
    ids: Seq<NodeId>,
    hut: u64,
    i: int,
)
    requires
        0 <= i <= ids.len(),
        forall|k: int|
            0 <= k < i ==> !(nodes.contains_key(#[trigger] ids[k]) && nodes[ids[k]] is Console && (
            nodes[ids[k]]->Console_0).id == hut),
    ensures
        i < ids.len() && nodes.contains_key(ids[i]) && nodes[ids[i]] is Console && (
        nodes[ids[i]]->Console_0).id == hut ==> first_console(nodes, ids, hut) == Some(ids[i]),
        i == ids.len() ==> first_console(nodes, ids, hut) is None,
    decreases i,
{
    if i > 0 {
        let rest = ids.drop_first();
        assert(!(nodes.contains_key(ids[0]) && nodes[ids[0]] is Console && (
        nodes[ids[0]]->Console_0).id == hut));
        assert forall|k: int| 0 <= k < i - 1 implies !(nodes.contains_key(#[trigger] rest[k])
            && nodes[rest[k]] is Console && (nodes[rest[k]]->Console_0).id == hut) by {
            assert(rest[k] == ids[k + 1]);
        }
        law_first_console_is_found(nodes, rest, hut, i - 1);
    }
}

/// A client surface is found in the first console among some nodes that holds
/// it; if none holds it, it is not found.
pub proof fn law_first_holder_is_found(
    nodes: Map<NodeId, NodeView>,
    ids: Seq<NodeId>,
    surface: u64,
    i: int,
)
    requires
        0 <= i <= ids.len(),
        forall|k: int|
            0 <= k < i ==> !(nodes.contains_key(#[trigger] ids[k]) && nodes[ids[k]] is Console && (
            nodes[ids[k]]->Console_0).holds(surface)),
    ensures
        i < ids.len() && nodes.contains_key(ids[i]) && nodes[ids[i]] is Console && (
        nodes[ids[i]]->Console_0).holds(surface) ==> first_holder(nodes, ids, surface) == Some(
            ids[i],
        ),
        i == ids.len() ==> first_holder(nodes, ids, surface) is None,
    decreases i,
{
    if i > 0 {
        let rest = ids.drop_first();
        assert(!(nodes.contains_key(ids[0]) && nodes[ids[0]] is Console && (
        nodes[ids[0]]->Console_0).holds(surface)));
        assert forall|k: int| 0 <= k < i - 1 implies !(nodes.contains_key(#[trigger] rest[k])
            && nodes[rest[k]] is Console && (nodes[rest[k]]->Console_0).holds(surface)) by {
            assert(rest[k] == ids[k + 1]);
        }
        law_first_holder_is_found(nodes, rest, surface, i - 1);
    }
}

/// A parent is the first among some nodes that has the node as a child.
pub proof fn law_first_parent_is_found(k: Kids, ids: Seq<NodeId>, target: NodeId, i: int)
    requires
        0 <= i <= ids.len(),
        forall|j: int| 0 <= j < i ==> !kids_of(k, #[trigger] ids[j]).contains(target),
    ensures
        i < ids.len() && k.contains_key(ids[i]) && k[ids[i]].contains(target) ==> first_parent(
            k,
            ids,
            target,
        ) == Some(ids[i]),
        i == ids.len() ==> first_parent(k, ids, target) is None,
    decreases i,
{
    if i > 0 {
        let rest = ids.drop_first();
        assert(!kids_of(k, ids[0]).contains(target));
        assert forall|j: int| 0 <= j < i - 1 implies !kids_of(k, #[trigger] rest[j]).contains(
            target,
        ) by {
            assert(rest[j] == ids[j + 1]);
        }
        law_first_parent_is_found(k, rest, target, i - 1);
    }
}

/// An entry belongs to the first output that lists it.
pub proof fn law_first_output_that_lists_an_entry(slots: Seq<SlotView>, id: NodeId, i: int)
    requires
        0 <= i <= slots.len(),
        forall|k: int| 0 <= k < i ==> !(#[trigger] slots[k]).huts.contains(id),
        i < slots.len() ==> slots[i].huts.contains(id),
    ensures
        first_slot_with(slots, id) == i,
    decreases i,
{
    if i > 0 {
        let rest = slots.drop_first();
        assert(!slots[0].huts.contains(id));
        assert forall|k: int| 0 <= k < i - 1 implies !(#[trigger] rest[k]).huts.contains(id) by {
            assert(rest[k] == slots[k + 1]);
        }
        law_first_output_that_lists_an_entry(rest, id, i - 1);
    }
}

/// The consoles among some nodes come in the order of the nodes, and everything
/// else is left out.
pub proof fn law_consoles_keep_their_order(
    nodes: Map<NodeId, NodeView>,
    ids: Seq<NodeId>,
    more: NodeId,
)
    ensures
        consoles(nodes, Seq::empty()) == Seq::<HutView>::empty(),
        nodes.contains_key(more) && nodes[more] is Console ==> consoles(nodes, ids.push(more))
            == consoles(nodes, ids).push(nodes[more]->Console_0),
        !nodes.contains_key(more) || !(nodes[more] is Console) ==> consoles(nodes, ids.push(more))
            == consoles(nodes, ids),
{
    assert(ids.push(more).drop_last() =~= ids);
}

/// The entries of all outputs come one output after the other.
pub proof fn law_entries_come_output_by_output(slots: Seq<SlotView>, more: SlotView)
    ensures
        tops_of(Seq::empty()) == Seq::<NodeId>::empty(),
        tops_of(slots.push(more)) == tops_of(slots) + more.huts,
{
    assert(slots.push(more).drop_last() =~= slots);
}

/// Replacing one entry by another leaves the others and their order.
pub proof fn law_replaced_entry(s: Seq<NodeId>, old_id: NodeId, new_id: NodeId, i: int)
    requires
        0 <= i < s.len(),
    ensures
        replaced(s, old_id, new_id).len() == s.len(),
        s[i] == old_id ==> replaced(s, old_id, new_id)[i] == new_id,
        s[i] != old_id ==> replaced(s, old_id, new_id)[i] == s[i],
{
}

/// An index that lies in a list is left alone; any other is brought back to the
/// last entry.
pub proof fn law_index_is_brought_back(i: usize, len: nat)
    requires
        len <= usize::MAX,
    ensures
        i < len ==> clamped(i, len) == i,
        0 < len <= i ==> clamped(i, len) + 1 == len,
        len == 0 ==> clamped(i, len) == 0,
{
}

impl StackView {
    /// Settling an output keeps its entries and every other output. Indices that
    /// lie in its list stay; any other is brought back to the last entry.
    pub proof fn law_settled_output(self, i: int, m: int)
        requires
            0 <= i < self.slots.len(),
            0 <= m < self.slots.len(),
            0 < self.slots[i].huts.len() <= usize::MAX,
        ensures
            ({
                let t = self.settled(i);
                let before = self.slots[i];
                let after = t.slots[i];
                &&& t.nodes == self.nodes && t.kids == self.kids && t.focused == self.focused
                &&& t.slots.len() == self.slots.len()
                &&& m != i ==> t.slots[m] == self.slots[m]
                &&& after.huts == before.huts && after.output == before.output && after.position
                    == before.position
                &&& after.current < after.huts.len()
                &&& before.current < before.huts.len() ==> after.current == before.current
                &&& before.current >= before.huts.len() ==> after.current + 1 == after.huts.len()
                &&& after.preview is Some <==> before.preview is Some
                &&& before.preview is Some && before.preview->0 < before.huts.len()
                    ==> after.preview == before.preview
                &&& before.preview is Some && before.preview->0 >= before.huts.len()
                    ==> after.preview->0 + 1 == after.huts.len()
            }),
    {
    }

    /// A console is on the first output, from a given one on, that holds it under
    /// one of its entries.
    pub proof fn law_output_of_a_console(self, hut: u64, from: int)
        requires
            0 <= from <= self.slots.len(),
        ensures
            ({
                let i = self.output_of(hut, from);
                &&& from <= i <= self.slots.len()
                &&& i < self.slots.len() ==> exists|k: int|
                    0 <= k < self.ids_on(i).len() && self.nodes.contains_key(
                        #[trigger] self.ids_on(i)[k],
                    ) && self.nodes[self.ids_on(i)[k]] is Console && (
                    self.nodes[self.ids_on(i)[k]]->Console_0).id == hut
                &&& forall|m: int, k: int|
                    from <= m < i && 0 <= k < self.ids_on(m).len() && self.nodes.contains_key(
                        #[trigger] self.ids_on(m)[k],
                    ) && self.nodes[self.ids_on(m)[k]] is Console ==> (
                    self.nodes[self.ids_on(m)[k]]->Console_0).id != hut
            }),
        decreases self.slots.len() - from,
    {
        if from < self.slots.len() {
            let ids = self.ids_on(from);
            lemma_first_console(self.nodes, ids, hut);
            if first_console(self.nodes, ids, hut) is None {
                self.law_output_of_a_console(hut, from + 1);
                assert forall|m: int, k: int|
                    from <= m < self.output_of(hut, from) && 0 <= k < self.ids_on(m).len()
                        && self.nodes.contains_key(#[trigger] self.ids_on(m)[k])
                        && self.nodes[self.ids_on(m)[k]] is Console implies (
                self.nodes[self.ids_on(m)[k]]->Console_0).id != hut by {
                    if m == from {
                        assert(ids.contains(ids[k]));
                    }
                }
            } else {
                let id = first_console(self.nodes, ids, hut)->0;
                let k = choose|k: int| 0 <= k < ids.len() && ids[k] == id;
                assert(self.nodes.contains_key(self.ids_on(from)[k]));
            }
        }
    }

    /// The exit of a console is about the output that lists it; for one that hangs
    /// under an entry, about the output that holds it; and about the focused one
    /// for a console that no output holds.
    pub proof fn law_output_of_an_exit(self, hut: u64, id: NodeId, i: int)
        requires
            0 <= i <= self.slots.len(),
            forall|k: int| 0 <= k < i ==> !(#[trigger] self.slots[k]).huts.contains(id),
        ensures
            i < self.slots.len() && self.slots[i].huts.contains(id) ==> self.exit_output(hut, id)
                == i,
            i == self.slots.len() && self.output_of(hut, 0) < self.slots.len()
                ==> self.exit_output(hut, id) == self.output_of(hut, 0),
            i == self.slots.len() && self.output_of(hut, 0) >= self.slots.len()
                ==> self.exit_output(hut, id) == self.focused,
    {
        if i == self.slots.len() || self.slots[i].huts.contains(id) {
            law_first_output_that_lists_an_entry(self.slots, id, i);
        }
    }

    /// Seeing through tabs leads from a Tab node to what is behind its active
    /// child, and from anything else to itself.
    pub proof fn law_tabs_are_seen_through(self, id: NodeId)
        requires
            acyclic(self.kids),
        ensures
            self.nodes.contains_key(id) ==> (self.nodes[id] matches NodeView::Tab { active, .. } ==> {
                &&& active < kids_of(self.kids, id).len() ==> self.behind_tabs(id)
                    == self.behind_tabs(kids_of(self.kids, id)[active as int])
                &&& active >= kids_of(self.kids, id).len() ==> self.behind_tabs(id) == id
            }),
            !self.nodes.contains_key(id) || !(self.nodes[id] is Tab) ==> self.behind_tabs(id) == id,
    {
        let step = |i: NodeId| self.tab_step(i);
        assert forall|a: NodeId| (#[trigger] step(a)) is Some implies kids_of(
            self.kids,
            a,
        ).contains(step(a)->0) by {
            let n = self.nodes[a]->Tab_active as int;
            assert(kids_of(self.kids, a)[n] == step(a)->0);
        }
        lemma_step_ends(self.kids, step, id);
        law_path_unfolds(step, id);
        match step(id) {
            None => {},
            Some(next) => {
                law_path_unfolds(step, next);
                let p = crate::graph::path_by(step, id);
                let q = crate::graph::path_by(step, next);
                assert(p.last() == q.last());
            },
        }
    }

    /// A surface under a console is looked for there, with the whole area; under a
    /// Tile node, in the panes.
    pub proof fn law_where_a_surface_is_looked_for(
        self,
        top: NodeId,
        root: u64,
        area: (i32, i32, i32, i32),
        shares: Seq<i32>,
    )
        ensures
            ({
                let id = self.behind_tabs(top);
                let found = self.leaf_rect(top, root, area, shares);
                &&& !self.nodes.contains_key(id) ==> found is None
                &&& self.nodes.contains_key(id) && self.nodes[id] is Tab ==> found is None
                &&& self.nodes.contains_key(id) && self.nodes[id] is Console ==> found
                    == rect_in_console(self.nodes[id]->Console_0, root, area)
                &&& self.nodes.contains_key(id) && self.nodes[id] is Tile ==> found
                    == self.rect_in_panes(
                    self.nodes[id]->axis,
                    kids_of(self.kids, id),
                    root,
                    shares,
                    area,
                    0,
                )
            }),
    {
    }

    /// A surface in a tiled area is in the first pane whose console has it, within
    /// that pane's rectangle. A surface that no pane has is nowhere.
    pub proof fn law_first_pane_that_has_a_surface(
        self,
        axis: Axis,
        children: Seq<NodeId>,
        root: u64,
        shares: Seq<i32>,
        area: (i32, i32, i32, i32),
        from: int,
        i: int,
    )
        requires
            0 <= from <= i <= children.len(),
            forall|k: int|
                from <= k < i ==> #[trigger] self.rect_in_pane(
                    children[k],
                    root,
                    self.pane_area(axis, shares, area, k),
                ) is None,
        ensures
            i < children.len() && self.rect_in_pane(
                children[i],
                root,
                self.pane_area(axis, shares, area, i),
            ) is Some ==> self.rect_in_panes(axis, children, root, shares, area, from)
                == self.rect_in_pane(children[i], root, self.pane_area(axis, shares, area, i)),
            i == children.len() ==> self.rect_in_panes(axis, children, root, shares, area, from)
                is None,
        decreases i - from,
    {
        if from < i {
            assert(self.rect_in_pane(
                children[from],
                root,
                self.pane_area(axis, shares, area, from),
            ) is None);
            self.law_first_pane_that_has_a_surface(
                axis,
                children,
                root,
                shares,
                area,
                from + 1,
                i,
            );
        }
    }

    /// The rectangle that pane `i` of a tiled area covers: as wide and high as the
    /// pane, and as far from the start of the area.
    pub open spec fn pane_area(
        self,
        axis: Axis,
        shares: Seq<i32>,
        area: (i32, i32, i32, i32),
        i: int,
    ) -> (i32, i32, i32, i32) {
        let p = pane_rect(axis, shares, (area.2, area.3), i);
        ((area.0 + p.0) as i32, (area.1 + p.1) as i32, p.2 as i32, p.3 as i32)
    }

    /// A surface in a pane is where the console has it that focus comes to rest on
    /// there; without such a console it is nowhere.
    pub proof fn law_surface_in_a_pane(self, child: NodeId, root: u64, rect: (i32, i32, i32, i32))
        ensures
            ({
                let leaf = self.path(child).last();
                let lands = self.nodes.contains_key(leaf) && self.nodes[leaf] is Console;
                &&& lands ==> self.rect_in_pane(child, root, rect) == rect_in_console(
                    self.nodes[leaf]->Console_0,
                    root,
                    rect,
                )
                &&& !lands ==> self.rect_in_pane(child, root, rect) is None
            }),
    {
    }
}

/// Panes keep their size on screen, and stand as far from each other as in the
/// tiled area: their places are all moved by where the area starts.
pub proof fn law_panes_move_with_their_area(
    axis: Axis,
    shares: Seq<i32>,
    area: (i32, i32, i32, i32),
    i: int,
)
    ensures
        ({
            let on_screen = pane_on_screen(axis, shares, area, i);
            let within = pane_rect(axis, shares, (area.2, area.3), i);
            &&& on_screen.0 - within.0 == area.0
            &&& on_screen.1 - within.1 == area.1
            &&& on_screen.2 == within.2 && on_screen.3 == within.3
        }),
{
}

/// A Main Window of a console fills the console's rectangle. A surface that is
/// none but floats is at its place in the console's space. Any other surface is
/// not on screen.
pub proof fn law_surface_in_a_console(
    hut: HutView,
    root: u64,
    rect: (i32, i32, i32, i32),
    i: int,
)
    requires
        0 <= i,
    ensures
        ({
            let main = exists|k: int|
                0 <= k < hut.windows.len() && (#[trigger] hut.windows[k]).window == root;
            let before = forall|k: int| 0 <= k < i ==> (#[trigger] hut.space[k]).window != root;
            let found = rect_in_console(hut, root, rect);
            &&& main ==> found == Some(LeafRect::Area(rect))
            &&& !main && i < hut.space.len() && hut.space[i].window == root && before ==> found
                == Some(LeafRect::Placed { hut: hut.id, position: hut.space[i].position })
            &&& !main && (forall|k: int|
                0 <= k < hut.space.len() ==> (#[trigger] hut.space[k]).window != root) ==> found
                is None
        }),
{
    if exists|k: int| 0 <= k < hut.windows.len() && (#[trigger] hut.windows[k]).window == root {
        let k = choose|k: int|
            0 <= k < hut.windows.len() && (#[trigger] hut.windows[k]).window == root;
        lemma_main_index_within(hut, root, k);
    } else {
        lemma_main_index(hut.windows, root, hut.windows.len() as int);
    }
    if forall|k: int| 0 <= k < hut.space.len() ==> (#[trigger] hut.space[k]).window != root {
        lemma_placed_index(hut.space, root, hut.space.len() as int);
    }
    if i < hut.space.len() && hut.space[i].window == root && forall|k: int|
        0 <= k < i ==> (#[trigger] hut.space[k]).window != root {
        lemma_placed_index(hut.space, root, i);
    }
}

proof fn lemma_main_index_within(hut: HutView, root: u64, k: int)
    requires
        0 <= k < hut.windows.len(),
        hut.windows[k].window == root,
    ensures
        crate::console_hut::main_index(hut.windows, root) < hut.windows.len(),
    decreases k,
{
    if forall|j: int| 0 <= j < k ==> (#[trigger] hut.windows[j]).window != root {
        lemma_main_index(hut.windows, root, k);
    } else {
        let j = choose|j: int| 0 <= j < k && (#[trigger] hut.windows[j]).window == root;
        lemma_main_index_within(hut, root, j);
    }
}

/// A Tab or Tile node that lost a child forgets the child's label or share, and
/// keeps those of the others. Nothing else of it changes but what is active.
pub proof fn law_lost_child_is_forgotten(
    n: NodeView,
    target: NodeId,
    other: NodeId,
    at: int,
    len: int,
)
    requires
        other != target,
    ensures
        n is Console ==> node_child_removed(n, target, at, len) == n,
        n matches NodeView::Tile { axis, fracs, .. } ==> ({
            let t = node_child_removed(n, target, at, len);
            &&& t is Tile && t->axis == axis
            &&& !t->fracs.contains_key(target)
            &&& t->fracs.contains_key(other) <==> fracs.contains_key(other)
            &&& fracs.contains_key(other) ==> t->fracs[other] == fracs[other]
        }),
        n matches NodeView::Tab { chrome, .. } ==> ({
            let t = node_child_removed(n, target, at, len);
            &&& t is Tab
            &&& !t->chrome.contains_key(target)
            &&& t->chrome.contains_key(other) <==> chrome.contains_key(other)
            &&& chrome.contains_key(other) ==> t->chrome[other] == chrome[other]
        }),
{
}

} // verus!
