//! What a stack of Huts is, and what each operation on it does, as
//! mathematics: the outputs with their most-recently-used lists, the tree of
//! Tab and Tile nodes under each entry, and the consoles at the leaves.
use vstd::prelude::*;

use crate::console_hut::HutView;
use crate::graph::{path_by, NodeId};
use crate::graph_nodes::{cycled, entry_at, NodeView, HALF_FRAC};
use crate::hut::{shifted, Axis, Direction};
use crate::tree::{acyclic, kids_of, kids_without, subtree, subtrees, Kids};

verus! {

/// One output's own stack.
#[verifier::ext_equal]
pub struct SlotView {
    pub output: u64,
    pub position: (i32, i32),
    pub panel_id: u64,
    pub huts: Seq<NodeId>,
    pub current: usize,
    pub preview: Option<usize>,
}

/// A stack of Huts over every output.
#[verifier::ext_equal]
pub struct StackView {
    pub nodes: Map<NodeId, NodeView>,
    pub kids: Kids,
    pub next_id: u64,
    pub slots: Seq<SlotView>,
    pub focused: usize,
}

/// What the focused leaf gets wrapped into.
#[derive(Debug, Clone, Copy, PartialEq, Eq, Structural)]
pub enum WrapKind {
    Tab,
    Tile(Axis),
}

/// Whether a node has ever been used. Only a console can be unused.
pub open spec fn node_touched(n: NodeView) -> bool {
    match n {
        NodeView::Console(hut) => hut.touched,
        _ => true,
    }
}

/// The node, used.
pub open spec fn touched_node(n: NodeView) -> NodeView {
    match n {
        NodeView::Console(hut) => NodeView::Console(HutView { touched: true, ..hut }),
        _ => n,
    }
}

/// The top-level entries of every output, one output after the other.
pub open spec fn tops_of(slots: Seq<SlotView>) -> Seq<NodeId>
    decreases slots.len(),
{
    if slots.len() == 0 {
        Seq::empty()
    } else {
        tops_of(slots.drop_last()) + slots.last().huts
    }
}

/// The first of these nodes that is the console `hut`.
pub open spec fn first_console(nodes: Map<NodeId, NodeView>, ids: Seq<NodeId>, hut: u64) -> Option<
    NodeId,
>
    decreases ids.len(),
{
    if ids.len() == 0 {
        None
    } else if is_console(nodes, ids[0], hut) {
        Some(ids[0])
    } else {
        first_console(nodes, ids.drop_first(), hut)
    }
}

/// Whether `id` is the console `hut`.
pub open spec fn is_console(nodes: Map<NodeId, NodeView>, id: NodeId, hut: u64) -> bool {
    nodes.contains_key(id) && (nodes[id] matches NodeView::Console(c) && c.id == hut)
}

/// Whether `id` is a console that holds a client surface.
pub open spec fn is_holder(nodes: Map<NodeId, NodeView>, id: NodeId, surface: u64) -> bool {
    nodes.contains_key(id) && (nodes[id] matches NodeView::Console(c) && c.holds(surface))
}

/// The first of these nodes that is a console holding a client surface.
pub open spec fn first_holder(
    nodes: Map<NodeId, NodeView>,
    ids: Seq<NodeId>,
    surface: u64,
) -> Option<NodeId>
    decreases ids.len(),
{
    if ids.len() == 0 {
        None
    } else if is_holder(nodes, ids[0], surface) {
        Some(ids[0])
    } else {
        first_holder(nodes, ids.drop_first(), surface)
    }
}

/// The consoles among these nodes, in order.
pub open spec fn consoles(nodes: Map<NodeId, NodeView>, ids: Seq<NodeId>) -> Seq<HutView>
    decreases ids.len(),
{
    if ids.len() == 0 {
        Seq::empty()
    } else {
        let before = consoles(nodes, ids.drop_last());
        if nodes.contains_key(ids.last()) && nodes[ids.last()] is Console {
            before.push(nodes[ids.last()]->Console_0)
        } else {
            before
        }
    }
}

/// The first of these nodes that has `target` as a child.
pub open spec fn first_parent(k: Kids, ids: Seq<NodeId>, target: NodeId) -> Option<NodeId>
    decreases ids.len(),
{
    if ids.len() == 0 {
        None
    } else if kids_of(k, ids[0]).contains(target) {
        Some(ids[0])
    } else {
        first_parent(k, ids.drop_first(), target)
    }
}

/// The first output that has `id` as a top-level entry.
pub open spec fn first_slot_with(slots: Seq<SlotView>, id: NodeId) -> int
    decreases slots.len(),
{
    if slots.len() == 0 || slots[0].huts.contains(id) {
        0
    } else {
        1 + first_slot_with(slots.drop_first(), id)
    }
}

/// Every occurrence of `old_id` in the list replaced by `new_id`.
pub open spec fn replaced(s: Seq<NodeId>, old_id: NodeId, new_id: NodeId) -> Seq<NodeId> {
    s.map_values(
        |x: NodeId|
            if x == old_id {
                new_id
            } else {
                x
            },
    )
}

/// The index itself, or the last one of a list of `len` entries.
pub open spec fn clamped(i: usize, len: nat) -> usize {
    if len == 0 {
        0
    } else if i < len {
        i
    } else {
        (len - 1) as usize
    }
}

impl SlotView {
    /// The entry the preview stands on, or the current one without a preview.
    pub open spec fn preview_index(self) -> usize {
        match self.preview {
            Some(p) => p,
            None => self.current,
        }
    }
}

impl StackView {
    /// The output that has input focus.
    pub open spec fn out(self) -> SlotView {
        self.slots[self.focused as int]
    }

    pub open spec fn with_slot(self, i: int, slot: SlotView) -> StackView {
        StackView { slots: self.slots.update(i, slot), ..self }
    }

    pub open spec fn with_out(self, slot: SlotView) -> StackView {
        self.with_slot(self.focused as int, slot)
    }

    /// The id the next node will get.
    pub open spec fn fresh_id(self) -> NodeId {
        NodeId(self.next_id)
    }

    /// With one more node, under a fresh id.
    pub open spec fn with_node(self, n: NodeView) -> StackView {
        StackView {
            nodes: self.nodes.insert(self.fresh_id(), n),
            next_id: (self.next_id + 1) as u64,
            ..self
        }
    }

    /// Without node `id` and without any reference to it from another node.
    pub open spec fn without_node(self, id: NodeId) -> StackView {
        StackView {
            nodes: self.nodes.remove(id),
            kids: kids_without(self.kids, id),
            ..self
        }
    }

    /// Without any of these nodes.
    pub open spec fn without_nodes(self, ids: Seq<NodeId>) -> StackView
        decreases ids.len(),
    {
        if ids.len() == 0 {
            self
        } else {
            self.without_nodes(ids.drop_last()).without_node(ids.last())
        }
    }

    /// Without the whole subtree of each of these nodes.
    pub open spec fn without_subtrees(self, tops: Seq<NodeId>) -> StackView
        decreases tops.len(),
    {
        if tops.len() == 0 {
            self
        } else {
            let before = self.without_subtrees(tops.drop_last());
            before.without_nodes(subtree(before.kids, tops.last()))
        }
    }

    pub open spec fn tops(self) -> Seq<NodeId> {
        tops_of(self.slots)
    }

    /// Every node under any top-level entry of any output.
    pub open spec fn all_ids(self) -> Seq<NodeId> {
        subtrees(self.kids, self.tops())
    }

    /// Every node under any top-level entry of output `i`.
    pub open spec fn ids_on(self, i: int) -> Seq<NodeId> {
        subtrees(self.kids, self.slots[i].huts)
    }

    /// Whether an entry counts as used. One that is no node counts as used.
    pub open spec fn used(self, id: NodeId) -> bool {
        self.nodes.contains_key(id) ==> node_touched(self.nodes[id])
    }

    /// With node `id`, if there is one, marked used.
    pub open spec fn marked(self, id: NodeId) -> StackView {
        if self.nodes.contains_key(id) {
            StackView { nodes: self.nodes.insert(id, touched_node(self.nodes[id])), ..self }
        } else {
            self
        }
    }

    /// The child that `id` hands focus to.
    pub open spec fn focus_step(self, id: NodeId) -> Option<NodeId> {
        if self.nodes.contains_key(id) {
            match self.nodes[id] {
                NodeView::Console(_) => None,
                NodeView::Tab { active, .. } => entry_at(kids_of(self.kids, id), active as int),
                NodeView::Tile { active, .. } => entry_at(kids_of(self.kids, id), active as int),
            }
        } else {
            None
        }
    }

    /// The nodes that focus passes through from `id` down to the leaf.
    pub open spec fn path(self, id: NodeId) -> Seq<NodeId> {
        path_by(|i: NodeId| self.focus_step(i), id)
    }

    /// Whether only Tab and Tile nodes have children.
    pub open spec fn containers_only(self) -> bool {
        forall|p: NodeId| #[trigger]
            self.kids.contains_key(p) ==> self.nodes.contains_key(p) && !(
            self.nodes[p] is Console)
    }

    /// Whether the next id to be handed out is above every id in use.
    pub open spec fn numbered(self) -> bool {
        forall|id: NodeId| #[trigger] self.nodes.contains_key(id) ==> id.0 < self.next_id
    }

    /// Whether only Tab and Tile nodes have children, nothing hangs under
    /// itself, and a fresh id is really fresh.
    pub open spec fn shaped(self) -> bool {
        &&& acyclic(self.kids)
        &&& self.containers_only()
        &&& self.numbered()
    }

    /// Whether some output has focus, and every output shows one of its
    /// entries.
    pub open spec fn seated(self) -> bool {
        &&& self.focused < self.slots.len()
        &&& forall|i: int|
            0 <= i < self.slots.len() ==> (#[trigger] self.slots[i]).current
                < self.slots[i].huts.len()
    }

    /// Whether a step of any Tab or Tile node's active index is in range of
    /// the machine's integers.
    pub open spec fn steppable(self) -> bool {
        forall|id: NodeId| #[trigger]
            self.nodes.contains_key(id) ==> match self.nodes[id] {
                NodeView::Console(_) => true,
                NodeView::Tab { active, .. } => active + kids_of(self.kids, id).len()
                    <= usize::MAX,
                NodeView::Tile { active, .. } => active + kids_of(self.kids, id).len()
                    <= usize::MAX,
            }
    }

    /// Whether focus, followed down from `id`, comes to rest on a console.
    pub open spec fn focus_lands(self, id: NodeId) -> bool {
        let leaf = self.path(id).last();
        self.nodes.contains_key(leaf) && self.nodes[leaf] is Console
    }

    /// The console that focus, followed down from `id`, comes to rest on.
    pub open spec fn focused_console(self, id: NodeId) -> HutView {
        self.nodes[self.path(id).last()]->Console_0
    }

    /// With another console in the place of node `id`'s.
    pub open spec fn with_console(self, id: NodeId, hut: HutView) -> StackView {
        StackView { nodes: self.nodes.insert(id, NodeView::Console(hut)), ..self }
    }

    // Operations.
    /// With a fresh console at the end of output `i`.
    pub open spec fn spawned(self, i: int, hut: HutView) -> StackView {
        self.with_node(NodeView::Console(hut)).with_slot(
            i,
            SlotView { huts: self.slots[i].huts.push(self.fresh_id()), ..self.slots[i] },
        )
    }

    /// Whether the entry at `pos` stays when a step leaves it.
    pub open spec fn keeps(self, pos: int, protect: Option<usize>) -> bool {
        (protect is Some && protect->0 == pos) || self.used(self.out().huts[pos])
    }

    /// The focused output's slot without the entry at `pos`; the current entry
    /// stays the same one.
    pub open spec fn slot_without(self, pos: int) -> SlotView {
        let o = self.out();
        SlotView {
            huts: o.huts.remove(pos),
            current: if pos < o.current {
                (o.current - 1) as usize
            } else {
                o.current
            },
            ..o
        }
    }

    /// Without the top-level entry at `pos` and its node.
    pub open spec fn discarded(self, pos: int) -> StackView {
        self.without_node(self.out().huts[pos]).with_out(self.slot_without(pos))
    }

    /// What leaving `pos` forwards does to the entry left.
    pub open spec fn left_forward(self, pos: int, protect: Option<usize>) -> (StackView, int) {
        if self.out().huts.len() == 0 {
            (self, 0)
        } else if self.keeps(pos, protect) {
            (self, pos + 1)
        } else {
            (self.discarded(pos), pos)
        }
    }

    /// Whether stepping forwards from `pos` runs off the end, so that a fresh
    /// console is needed.
    pub open spec fn forward_spawns(self, pos: int, protect: Option<usize>) -> bool {
        let (s, p) = self.left_forward(pos, protect);
        p >= s.out().huts.len()
    }

    /// A step forwards from `pos`: where it lands, and the stack then. A
    /// fresh console is put at the end where the step runs off it.
    pub open spec fn forward(self, pos: int, protect: Option<usize>, hut: HutView) -> (
        StackView,
        int,
    ) {
        let (s, p) = self.left_forward(pos, protect);
        if p >= s.out().huts.len() {
            (s.spawned(s.focused as int, hut), p)
        } else {
            (s, p)
        }
    }

    /// A step backwards from `pos`: where it lands, and the stack then.
    pub open spec fn backward(self, pos: int, protect: Option<usize>) -> (StackView, int) {
        if pos == 0 || self.out().huts.len() == 0 {
            (self, pos)
        } else if self.keeps(pos, protect) {
            (self, pos - 1)
        } else {
            (self.discarded(pos), pos - 1)
        }
    }

    pub open spec fn at(self, pos: int) -> StackView {
        self.with_out(SlotView { current: pos as usize, ..self.out() })
    }

    pub open spec fn previewing(self, pos: int) -> StackView {
        self.with_out(SlotView { preview: Some(pos as usize), ..self.out() })
    }

    /// With the previewed entry, marked used, moved to the front.
    pub open spec fn committed(self) -> StackView {
        match self.out().preview {
            None => self,
            Some(pos) => {
                let o = self.out();
                if pos < o.huts.len() {
                    let id = o.huts[pos as int];
                    self.marked(id).with_out(
                        SlotView {
                            huts: seq![id] + o.huts.remove(pos as int),
                            current: 0,
                            preview: None,
                            ..o
                        },
                    )
                } else {
                    self.with_out(SlotView { current: 0, preview: None, ..o })
                }
            },
        }
    }

    /// With `new_id` in the place of `old_id` among `parent`'s children. A
    /// Tile pane's share goes over to the new child; a cached tab label does
    /// not.
    pub open spec fn child_swapped(self, parent: NodeId, old_id: NodeId, new_id: NodeId) -> StackView {
        let list = kids_of(self.kids, parent);
        if !list.contains(old_id) {
            self
        } else {
            StackView {
                kids: self.kids.insert(parent, list.update(list.index_of_first(old_id)->0, new_id)),
                nodes: if self.nodes.contains_key(parent) {
                    self.nodes.insert(
                        parent,
                        node_child_swapped(self.nodes[parent], old_id, new_id),
                    )
                } else {
                    self.nodes
                },
                ..self
            }
        }
    }

    /// [`Self::child_swapped`] on each of these nodes in turn.
    pub open spec fn children_swapped(
        self,
        parents: Seq<NodeId>,
        old_id: NodeId,
        new_id: NodeId,
    ) -> StackView
        decreases parents.len(),
    {
        if parents.len() == 0 {
            self
        } else {
            self.children_swapped(parents.drop_last(), old_id, new_id).child_swapped(
                parents.last(),
                old_id,
                new_id,
            )
        }
    }

    /// With `new_id` in the place of `old_id` among the top-level entries.
    pub open spec fn tops_swapped(self, old_id: NodeId, new_id: NodeId) -> StackView {
        StackView {
            slots: self.slots.map_values(
                |s: SlotView| SlotView { huts: replaced(s.huts, old_id, new_id), ..s },
            ),
            ..self
        }
    }

    /// With every reference to `old_id` leading to `new_id` instead.
    pub open spec fn repointed(self, old_id: NodeId, new_id: NodeId) -> StackView {
        let s = self.tops_swapped(old_id, new_id);
        s.children_swapped(s.all_ids(), old_id, new_id)
    }

    /// With the focused leaf wrapped in place: a fresh console and the leaf
    /// become the two children of a fresh Tab or Tile node, the leaf staying
    /// active, and that node takes the leaf's place.
    pub open spec fn wrapped(self, kind: WrapKind, hut: HutView) -> StackView {
        let new_id = self.fresh_id();
        let s1 = self.with_node(NodeView::Console(hut));
        let o = s1.out();
        let top = o.huts[o.current as int];
        let path = s1.path(top);
        let leaf = path.last();
        let wrapper = s1.fresh_id();
        let node = match kind {
            WrapKind::Tab => NodeView::Tab { active: 1, chrome: Map::empty() },
            WrapKind::Tile(axis) => NodeView::Tile {
                axis,
                active: 1,
                fracs: Map::empty().insert(new_id, HALF_FRAC).insert(leaf, HALF_FRAC),
            },
        };
        let s2 = s1.with_node(node);
        let s3 = StackView { kids: s2.kids.insert(wrapper, seq![new_id, leaf]), ..s2 };
        if path.len() == 1 {
            s3.with_out(SlotView { huts: o.huts.update(o.current as int, wrapper), ..o })
        } else {
            s3.child_swapped(path[path.len() - 2], leaf, wrapper)
        }
    }

    /// Without `target` among the children of the first node that has it. A
    /// node left with one child gives way to that child.
    pub open spec fn child_removed(self, target: NodeId) -> StackView {
        match first_parent(self.kids, self.all_ids(), target) {
            None => self,
            Some(parent) => {
                let list = self.kids[parent];
                let at = list.index_of_first(target)->0;
                let rest = list.remove(at);
                if rest.len() == 1 {
                    self.repointed(parent, rest[0]).without_node(parent)
                } else {
                    StackView {
                        kids: self.kids.insert(parent, rest),
                        nodes: if self.nodes.contains_key(parent) {
                            self.nodes.insert(
                                parent,
                                node_child_removed(
                                    self.nodes[parent],
                                    target,
                                    at,
                                    rest.len() as int,
                                ),
                            )
                        } else {
                            self.nodes
                        },
                        ..self
                    }
                }
            },
        }
    }

    /// The output that the exit of console `hut`, which is node `id`, is
    /// about.
    pub open spec fn exit_output(self, hut: u64, id: NodeId) -> int {
        let top = first_slot_with(self.slots, id);
        if top < self.slots.len() {
            top
        } else {
            let own = self.output_of(hut, 0);
            if own < self.slots.len() {
                own
            } else {
                self.focused as int
            }
        }
    }

    /// The first output, from `i` on, whose subtrees hold the console `hut`.
    pub open spec fn output_of(self, hut: u64, i: int) -> int
        decreases self.slots.len() - i,
    {
        if i >= self.slots.len() || first_console(self.nodes, self.ids_on(i), hut) is Some {
            i
        } else {
            self.output_of(hut, i + 1)
        }
    }

    /// The stack right after console `hut`, which is node `id`, is taken out,
    /// before an emptied output is refilled.
    pub open spec fn without_console(self, id: NodeId) -> StackView {
        let i = first_slot_with(self.slots, id);
        if i < self.slots.len() {
            let o = self.slots[i];
            let at = o.huts.index_of_first(id)->0;
            let n = o.huts.len() - 1;
            self.without_node(id).with_slot(
                i,
                SlotView {
                    huts: o.huts.remove(at),
                    current: shifted(o.current as int, at, n) as usize,
                    preview: match o.preview {
                        Some(p) => Some(shifted(p as int, at, n) as usize),
                        None => None,
                    },
                    ..o
                },
            )
        } else {
            self.child_removed(id).without_node(id)
        }
    }

    /// With the indices of output `i` brought back within its list.
    pub open spec fn settled(self, i: int) -> StackView {
        let o = self.slots[i];
        self.with_slot(
            i,
            SlotView {
                current: clamped(o.current, o.huts.len()),
                preview: match o.preview {
                    Some(p) => Some(clamped(p, o.huts.len())),
                    None => None,
                },
                ..o
            },
        )
    }

    /// Whether the exit of console `hut` leaves an output empty, so that a
    /// fresh console is needed.
    pub open spec fn exit_spawns(self, hut: u64) -> bool {
        match first_console(self.nodes, self.all_ids(), hut) {
            None => false,
            Some(id) => self.without_console(id).slots[self.exit_output(hut, id)].huts.len() == 0,
        }
    }

    /// The stack after console `hut` exited. An output left empty gets the
    /// fresh console.
    pub open spec fn exited(self, hut: u64, fresh: HutView) -> StackView {
        match first_console(self.nodes, self.all_ids(), hut) {
            None => self,
            Some(id) => {
                let i = self.exit_output(hut, id);
                let s = self.without_console(id);
                if s.slots[i].huts.len() == 0 {
                    s.spawned(i, fresh).settled(i)
                } else {
                    s.settled(i)
                }
            },
        }
    }

    /// With output `i` and everything on it gone.
    pub open spec fn without_output(self, i: int) -> StackView {
        let s = StackView { slots: self.slots.remove(i), ..self }.without_subtrees(
            self.slots[i].huts,
        );
        StackView {
            focused: if self.focused >= self.slots.len() - 1 {
                (self.slots.len() - 2) as usize
            } else if self.focused > i {
                (self.focused - 1) as usize
            } else {
                self.focused
            },
            ..s
        }
    }

    /// The deepest of the first `n` nodes of `path` that has two children or
    /// more, as its position plus one; 0 if there is none.
    pub open spec fn cycling_level(self, path: Seq<NodeId>, n: int) -> int
        decreases n,
    {
        if n <= 0 {
            0
        } else if self.nodes.contains_key(path[n - 1]) && !(self.nodes[path[n - 1]] is Console)
            && kids_of(self.kids, path[n - 1]).len() >= 2 {
            n
        } else {
            self.cycling_level(path, n - 1)
        }
    }

    /// With node `id`'s active index moved one step.
    pub open spec fn node_cycled(self, id: NodeId, dir: Direction) -> StackView {
        let n = kids_of(self.kids, id).len() as int;
        StackView {
            nodes: self.nodes.insert(
                id,
                match self.nodes[id] {
                    NodeView::Tab { active, chrome } => NodeView::Tab {
                        active: cycled(n, active, dir),
                        chrome,
                    },
                    NodeView::Tile { axis, active, fracs } => NodeView::Tile {
                        axis,
                        active: cycled(n, active, dir),
                        fracs,
                    },
                    NodeView::Console(c) => NodeView::Console(c),
                },
            ),
            ..self
        }
    }

    /// With the innermost level on the focus path that has anything to cycle
    /// moved one step.
    pub open spec fn innermost_cycled(self, dir: Direction) -> StackView {
        let path = self.path(self.out().huts[self.out().current as int]);
        let level = self.cycling_level(path, path.len() as int);
        if level > 0 {
            self.node_cycled(path[level - 1], dir)
        } else {
            self
        }
    }
}

/// A node with `new_id` in the place of its child `old_id`.
pub open spec fn node_child_swapped(n: NodeView, old_id: NodeId, new_id: NodeId) -> NodeView {
    match n {
        NodeView::Tile { axis, active, fracs } => NodeView::Tile {
            axis,
            active,
            fracs: if fracs.contains_key(old_id) {
                fracs.remove(old_id).insert(new_id, fracs[old_id])
            } else {
                fracs
            },
        },
        NodeView::Tab { active, chrome } => NodeView::Tab { active, chrome: chrome.remove(old_id) },
        NodeView::Console(c) => NodeView::Console(c),
    }
}

/// A node that lost the child at `at`, keeping `len` of them.
pub open spec fn node_child_removed(n: NodeView, target: NodeId, at: int, len: int) -> NodeView {
    match n {
        NodeView::Tile { axis, active, fracs } => NodeView::Tile {
            axis,
            active: shifted(active as int, at, len) as usize,
            fracs: fracs.remove(target),
        },
        NodeView::Tab { active, chrome } => NodeView::Tab {
            active: shifted(active as int, at, len) as usize,
            chrome: chrome.remove(target),
        },
        NodeView::Console(c) => NodeView::Console(c),
    }
}

} // verus!
