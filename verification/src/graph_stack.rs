//! The stack of Huts of every output, most recently used first, over one
//! graph of consoles, Tab nodes and Tile nodes.
//!
//! Starting a console is work for the outside. Each operation that may need a
//! fresh one has a companion that tells beforehand whether it does, and takes
//! what came of starting it.
use vstd::prelude::*;

use crate::console_hut::{ConsoleHut, HutView};
use crate::graph::{copy_ids, law_path_unfolds, Graph, GraphView, InputPort, Node, NodeId, PortKind};
use crate::graph_nodes::{children_in, HutNode, NodeView, TabNode, TileNode, HALF_FRAC};
use crate::hut::{shift_active_index_on_removal, Axis, Direction};
use crate::stack_model::{
    consoles, first_console, first_holder, first_parent, first_slot_with, is_console, is_holder,
    node_child_removed, node_child_swapped, replaced, tops_of, touched_node, SlotView, StackView,
    WrapKind,
};
use crate::tree::{
    acyclic, collect_subtree, collect_subtrees, kids_in, kids_of, kids_without, lemma_step_ends,
    subtree,
};

verus! {

/// Opens once per frame.
pub struct FrameGate(bool);

impl FrameGate {
    /// Whether it was used since the last reset.
    pub closed spec fn spent(self) -> bool {
        self.0
    }

    pub fn new() -> (r: Self)
        ensures
            !r.spent(),
    {
        FrameGate(false)
    }

    pub fn reset(&mut self)
        ensures
            !final(self).spent(),
    {
        self.0 = false;
    }

    /// `true` only the first time since the last reset.
    pub fn take(&mut self) -> (r: bool)
        ensures
            r == !old(self).spent(),
            final(self).spent(),
    {
        let needed = !self.0;
        self.0 = true;
        needed
    }
}

/// One physical output's own independent stack.
pub struct OutputSlot {
    /// The output this stack shows on, by number.
    pub output: u64,
    /// The output's place in the space shared by all of them.
    pub position: (i32, i32),
    /// Top-level entries, most recently used first.
    pub huts: Vec<NodeId>,
    /// Which entry is shown.
    pub current: usize,
    preview: Option<usize>,
    panel_id: u64,
}

impl View for OutputSlot {
    type V = SlotView;

    closed spec fn view(&self) -> SlotView {
        SlotView {
            output: self.output,
            position: self.position,
            panel_id: self.panel_id,
            huts: self.huts@,
            current: self.current,
            preview: self.preview,
        }
    }
}

impl OutputSlot {
    pub fn len(&self) -> (r: usize)
        ensures
            r == self@.huts.len(),
    {
        self.huts.len()
    }

    pub fn is_empty(&self) -> (r: bool)
        ensures
            r == (self@.huts.len() == 0),
    {
        self.huts.len() == 0
    }

    pub fn is_previewing(&self) -> (r: bool)
        ensures
            r == (self@.preview is Some),
    {
        self.preview.is_some()
    }

    pub fn preview_index(&self) -> (r: usize)
        ensures
            r == self@.preview_index(),
    {
        match self.preview {
            Some(p) => p,
            None => self.current,
        }
    }

    pub fn panel_id(&self) -> (r: u64)
        ensures
            r == self@.panel_id,
    {
        self.panel_id
    }

    /// The node at the current entry.
    pub fn focused_top_level(&self) -> (r: NodeId)
        requires
            self@.current < self@.huts.len(),
        ensures
            r == self@.huts[self@.current as int],
    {
        self.huts[self.current]
    }

    pub fn top_level_entries(&self) -> (r: &Vec<NodeId>)
        ensures
            r@ == self@.huts,
    {
        &self.huts
    }
}

pub struct GraphStack {
    graph: Graph<HutNode, Vec<u64>, ()>,
    pub outputs: Vec<OutputSlot>,
    focused_output: usize,
    keyboard_focus_synced: FrameGate,
}

/// What a frame remembers: of nodes and their output ports, the consoles, by
/// number, that their content is made of.
pub type Resolved = Map<(NodeId, Seq<char>), Seq<u64>>;

pub open spec fn kept_of(cache: Map<(NodeId, Seq<char>), Vec<u64>>) -> Resolved {
    cache.map_values(|v: Vec<u64>| v@)
}

pub open spec fn slot_views(s: Seq<OutputSlot>) -> Seq<SlotView> {
    s.map_values(|o: OutputSlot| o@)
}

pub open spec fn node_views(m: Map<NodeId, HutNode>) -> Map<NodeId, NodeView> {
    m.map_values(|n: HutNode| n@)
}

/// The stack that a graph and its outputs make up.
pub open spec fn stack_of(
    g: GraphView<HutNode, Vec<u64>, ()>,
    slots: Seq<OutputSlot>,
    focused: usize,
) -> StackView {
    StackView {
        nodes: node_views(g.nodes),
        kids: kids_in(g.hut_lists),
        next_id: g.next_id,
        slots: slot_views(slots),
        focused,
    }
}

impl View for GraphStack {
    type V = StackView;

    closed spec fn view(&self) -> StackView {
        stack_of(self.graph@, self.outputs@, self.focused_output)
    }
}

proof fn lemma_graph_without(g: GraphView<HutNode, Vec<u64>, ()>, id: NodeId)
    ensures
        node_views(g.without_node(id).nodes) == node_views(g.nodes).remove(id),
        kids_in(g.without_node(id).hut_lists) == kids_without(kids_in(g.hut_lists), id),
{
    assert(node_views(g.without_node(id).nodes) =~= node_views(g.nodes).remove(id));
    assert(kids_in(g.without_node(id).hut_lists) =~= kids_without(kids_in(g.hut_lists), id));
}

proof fn lemma_graph_with_node(g: GraphView<HutNode, Vec<u64>, ()>, id: NodeId, n: HutNode)
    ensures
        node_views(g.nodes.insert(id, n)) == node_views(g.nodes).insert(id, n@),
{
    assert(node_views(g.nodes.insert(id, n)) =~= node_views(g.nodes).insert(id, n@));
}

proof fn lemma_graph_with_kids(g: GraphView<HutNode, Vec<u64>, ()>, id: NodeId, t: Seq<NodeId>)
    ensures
        kids_in(g.hut_lists.insert((id, "children"@), t)) == kids_in(g.hut_lists).insert(id, t),
{
    assert(kids_in(g.hut_lists.insert((id, "children"@), t)) =~= kids_in(g.hut_lists).insert(
        id,
        t,
    ));
}

impl GraphStack {
    /// Whether the per-frame keyboard focus sync was already taken.
    pub closed spec fn focus_synced(self) -> bool {
        self.keyboard_focus_synced.spent()
    }

    /// What the frame remembers of what was resolved in it.
    pub closed spec fn resolved(self) -> Resolved {
        kept_of(self.graph@.cache)
    }

    /// Whether the frame is no further than in `other`: the keyboard focus
    /// gate is as open, and just the same was resolved.
    pub open spec fn same_frame(self, other: GraphStack) -> bool {
        self.focus_synced() == other.focus_synced() && self.resolved() == other.resolved()
    }

    /// A stack with one output that shows one console.
    pub fn new(first: ConsoleHut, output: u64, panel_id: u64) -> (r: Self)
        ensures
            r@ == (StackView {
                nodes: Map::empty().insert(NodeId(0), NodeView::Console(first@)),
                kids: Map::empty(),
                next_id: 1,
                slots: seq![
                    SlotView {
                        output,
                        position: (0i32, 0i32),
                        panel_id,
                        huts: seq![NodeId(0)],
                        current: 0,
                        preview: None,
                    },
                ],
                focused: 0,
            }),
            r@.well_formed(),
            first@.holds_once() ==> r@.windows_once(),
            !r.focus_synced(),
            r.resolved() == Map::<(NodeId, Seq<char>), Seq<u64>>::empty(),
    {
        let ghost view = first@;
        let mut graph: Graph<HutNode, Vec<u64>, ()> = Graph::new();
        let ghost g0 = graph@;
        let ghost node = HutNode::Console(first);
        let id = graph.add_node(HutNode::Console(first));
        let mut huts: Vec<NodeId> = Vec::new();
        huts.push(id);
        let mut outputs: Vec<OutputSlot> = Vec::new();
        outputs.push(
            OutputSlot { output, position: (0, 0), huts, current: 0, preview: None, panel_id },
        );
        let r = GraphStack {
            graph,
            outputs,
            focused_output: 0,
            keyboard_focus_synced: FrameGate::new(),
        };
        proof {
            lemma_graph_with_node(g0, id, node);
            assert(node_views(g0.nodes) =~= Map::empty());
            assert(r@.kids =~= Map::empty());
            assert(r@.slots[0].huts =~= seq![NodeId(0)]);
            assert(r@.slots =~= seq![
                SlotView {
                    output,
                    position: (0i32, 0i32),
                    panel_id,
                    huts: seq![NodeId(0)],
                    current: 0,
                    preview: None,
                },
            ]);
            r@.law_first_stack_is_well_formed(view);
        }
        r
    }

    /// Forgets what the frame before had resolved, and opens the keyboard
    /// focus gate again.
    pub fn begin_frame(&mut self)
        ensures
            final(self)@ == old(self)@,
            !final(self).focus_synced(),
            final(self).resolved() == Map::<(NodeId, Seq<char>), Seq<u64>>::empty(),
    {
        self.graph.begin_frame();
        self.keyboard_focus_synced.reset();
        assert(self.resolved() =~= Map::<(NodeId, Seq<char>), Seq<u64>>::empty());
    }

    /// `true` only the first time since the last [`Self::begin_frame`].
    pub fn take_needs_keyboard_focus_sync(&mut self) -> (r: bool)
        ensures
            r == !old(self).focus_synced(),
            final(self).focus_synced(),
            final(self).resolved() == old(self).resolved(),
            final(self)@ == old(self)@,
    {
        self.keyboard_focus_synced.take()
    }

    pub fn graph(&self) -> (r: &Graph<HutNode, Vec<u64>, ()>)
        ensures
            node_views(r@.nodes) == self@.nodes,
            kids_in(r@.hut_lists) == self@.kids,
            r@.next_id == self@.next_id,
            kept_of(r@.cache) == self.resolved(),
    {
        &self.graph
    }

    /// The graph, to be changed in place.
    pub fn graph_mut(&mut self) -> (r: &mut Graph<HutNode, Vec<u64>, ()>)
        ensures
            node_views(r@.nodes) == old(self)@.nodes,
            kids_in(r@.hut_lists) == old(self)@.kids,
            r@.next_id == old(self)@.next_id,
            final(self)@ == (StackView {
                nodes: node_views(final(r)@.nodes),
                kids: kids_in(final(r)@.hut_lists),
                next_id: final(r)@.next_id,
                ..old(self)@
            }),
            kept_of(r@.cache) == old(self).resolved(),
            final(self).resolved() == kept_of(final(r)@.cache),
            final(self).focus_synced() == old(self).focus_synced(),
    {
        &mut self.graph
    }

    /// Has the frame remember the content of a node.
    pub(crate) fn remember_content(&mut self, id: NodeId, content: Vec<u64>)
        ensures
            final(self)@ == old(self)@,
            final(self).focus_synced() == old(self).focus_synced(),
            final(self).resolved() == old(self).resolved().insert((id, "content"@), content@),
    {
        self.graph.keep(id, "content", content);
        assert(self.resolved() =~= old(self).resolved().insert((id, "content"@), content@));
    }

    pub fn outputs(&self) -> (r: &Vec<OutputSlot>)
        ensures
            slot_views(r@) == self@.slots,
    {
        &self.outputs
    }

    pub fn focused_output_index(&self) -> (r: usize)
        ensures
            r == self@.focused,
    {
        self.focused_output
    }

    // Changes to one node, one reference or one slot.
    fn drop_node(&mut self, id: NodeId)
        ensures
            final(self)@ == old(self)@.without_node(id),
            final(self).same_frame(*old(self)),
    {
        proof {
            lemma_graph_without(self.graph@, id);
        }
        self.graph.remove_node(id);
    }

    fn put_node(&mut self, node: HutNode) -> (r: NodeId)
        requires
            old(self)@.next_id < u64::MAX,
        ensures
            r == old(self)@.fresh_id(),
            final(self)@ == old(self)@.with_node(node@),
            final(self).same_frame(*old(self)),
    {
        proof {
            lemma_graph_with_node(self.graph@, NodeId(self.graph@.next_id), node);
        }
        self.graph.add_node(node)
    }

    fn set_children(&mut self, id: NodeId, targets: Vec<NodeId>)
        requires
            old(self)@.nodes.contains_key(id),
            !(old(self)@.nodes[id] is Console),
        ensures
            final(self)@ == (StackView {
                kids: old(self)@.kids.insert(id, targets@),
                ..old(self)@
            }),
            final(self).same_frame(*old(self)),
    {
        proof {
            let n = self.graph@.nodes[id];
            assert(node_views(self.graph@.nodes)[id] == n@);
            assert(n.in_ports() == seq![
                InputPort { name: "children", kind: PortKind::HutList },
            ]);
            assert(crate::graph::input_named(n.in_ports(), "children"@) == Some(
                PortKind::HutList,
            ));
            assert(self.graph@.list_check(id, "children") is Ok);
            lemma_graph_with_kids(self.graph@, id, targets@);
        }
        let r = self.graph.set_hut_list(id, "children", targets);
        assert(r is Ok);
    }

    fn mark(&mut self, id: NodeId)
        ensures
            final(self)@ == old(self)@.marked(id),
            final(self).same_frame(*old(self)),
    {
        let ghost before = self.graph@;
        match self.graph.node_mut(id) {
            Some(node) => {
                node.mark_touched();
            },
            None => {},
        }
        proof {
            if before.nodes.contains_key(id) {
                let n = before.nodes[id];
                let m = n.as_touched();
                lemma_graph_with_node(before, id, m);
                match n {
                    HutNode::Console(hut) => hut.lemma_as_touched(),
                    _ => {},
                }
                assert(m@ == touched_node(n@));
            }
        }
    }

    fn set_slot(&mut self, i: usize, slot: OutputSlot)
        requires
            i < old(self)@.slots.len(),
        ensures
            final(self)@ == old(self)@.with_slot(i as int, slot@),
            final(self).same_frame(*old(self)),
    {
        self.outputs.set(i, slot);
        assert(self@.slots =~= old(self)@.slots.update(i as int, slot@));
    }

    fn slot(&self, i: usize) -> (r: &OutputSlot)
        requires
            i < self@.slots.len(),
        ensures
            r@ == self@.slots[i as int],
    {
        &self.outputs[i]
    }

    fn slot_copy(&self, i: usize) -> (r: OutputSlot)
        requires
            i < self@.slots.len(),
        ensures
            r@ == self@.slots[i as int],
    {
        let s = &self.outputs[i];
        OutputSlot {
            output: s.output,
            position: s.position,
            huts: copy_ids(&s.huts),
            current: s.current,
            preview: s.preview,
            panel_id: s.panel_id,
        }
    }

    fn put_console(&mut self, i: usize, hut: ConsoleHut) -> (r: u64)
        requires
            i < old(self)@.slots.len(),
            old(self)@.next_id < u64::MAX,
        ensures
            r == hut@.id,
            final(self)@ == old(self)@.spawned(i as int, hut@),
            final(self).same_frame(*old(self)),
    {
        let hut_id: u64 = hut.id();
        let mut slot = self.slot_copy(i);
        let id = self.put_node(HutNode::Console(hut));
        slot.huts.push(id);
        self.set_slot(i, slot);
        hut_id
    }

    // Outputs.
    /// Gives slot `index` its output, if there is such a slot.
    pub fn set_output(&mut self, index: usize, output: u64)
        ensures
            final(self).same_frame(*old(self)),
            final(self)@ == (if index < old(self)@.slots.len() {
                old(self)@.with_slot(
                    index as int,
                    SlotView { output, ..old(self)@.slots[index as int] },
                )
            } else {
                old(self)@
            }),
    {
        if index < self.outputs.len() {
            let mut slot = self.slot_copy(index);
            slot.output = output;
            self.set_slot(index, slot);
        }
    }

    /// Adds an output with its own stack of one fresh console. Nothing
    /// changes if that console could not be started. Returns the new slot's
    /// index.
    pub fn add_output(
        &mut self,
        output: u64,
        position: (i32, i32),
        panel_id: u64,
        fresh: Result<ConsoleHut, String>,
    ) -> (r: Result<usize, String>)
        requires
            fresh is Ok ==> old(self)@.next_id < u64::MAX,
        ensures
            final(self).same_frame(*old(self)),
            match fresh {
                Ok(hut) => {
                    &&& r == Ok::<usize, String>(old(self)@.slots.len() as usize)
                    &&& final(self)@ == (StackView {
                        slots: old(self)@.slots.push(
                            SlotView {
                                output,
                                position,
                                panel_id,
                                huts: seq![old(self)@.fresh_id()],
                                current: 0,
                                preview: None,
                            },
                        ),
                        ..old(self)@.with_node(NodeView::Console(hut@))
                    })
                },
                Err(e) => r == Err::<usize, String>(e) && final(self)@ == old(self)@,
            },
            old(self)@.well_formed() ==> final(self)@.well_formed(),
    {
        match fresh {
            Err(e) => Err(e),
            Ok(hut) => {
                let ghost hut_view = hut@;
                let id = self.put_node(HutNode::Console(hut));
                let mut huts: Vec<NodeId> = Vec::new();
                huts.push(id);
                let slot = OutputSlot {
                    output,
                    position,
                    huts,
                    current: 0,
                    preview: None,
                    panel_id,
                };
                let ghost view = slot@;
                self.outputs.push(slot);
                proof {
                    assert(view.huts =~= seq![old(self)@.fresh_id()]);
                    assert(self@.slots =~= old(self)@.slots.push(view));
                }
                proof {
                    if old(self)@.well_formed() {
                        old(self)@.law_add_output_keeps_well_formed(view, hut_view);
                    }
                }
                Ok(self.outputs.len() - 1)
            },
        }
    }

    fn drop_nodes(&mut self, ids: &Vec<NodeId>)
        ensures
            final(self)@ == old(self)@.without_nodes(ids@),
            final(self).same_frame(*old(self)),
    {
        assert(ids@.take(0) =~= Seq::empty());
        for i in 0..ids.len()
            invariant
                self@ == old(self)@.without_nodes(ids@.take(i as int)),
                self.same_frame(*old(self)),
        {
            self.drop_node(ids[i]);
            proof {
                let t = ids@.take(i + 1);
                assert(t.drop_last() =~= ids@.take(i as int));
                assert(t.last() == ids@[i as int]);
            }
        }
        assert(ids@.take(ids@.len() as int) =~= ids@);
    }

    /// Removes an output. Everything on it goes with it. The last remaining
    /// output is never removed.
    pub fn remove_output(&mut self, index: usize)
        requires
            acyclic(old(self)@.kids),
            old(self)@.focused < old(self)@.slots.len(),
        ensures
            final(self).same_frame(*old(self)),
            final(self)@ == (if old(self)@.slots.len() <= 1 || index >= old(self)@.slots.len() {
                old(self)@
            } else {
                old(self)@.without_output(index as int)
            }),
            old(self)@.well_formed() ==> final(self)@.well_formed(),
    {
        proof {
            if old(self)@.well_formed() && old(self)@.slots.len() > 1 && index < old(
                self,
            )@.slots.len() {
                old(self)@.law_remove_output_keeps_well_formed(index as int);
            }
        }
        if self.outputs.len() <= 1 || index >= self.outputs.len() {
            return ;
        }
        let removed = self.outputs.remove(index);
        let ghost start = self@;
        let ghost huts = removed.huts@;
        proof {
            assert(start.slots =~= old(self)@.slots.remove(index as int));
            assert(huts.take(0) =~= Seq::empty());
        }
        for i in 0..removed.huts.len()
            invariant
                huts == removed.huts@,
                acyclic(self@.kids),
                self@ == start.without_subtrees(huts.take(i as int)),
                self.same_frame(*old(self)),
        {
            let ghost mid = self@;
            let mut ids: Vec<NodeId> = Vec::new();
            collect_subtree(&self.graph, removed.huts[i], &mut ids);
            assert(ids@ =~= subtree(mid.kids, huts[i as int]));
            self.drop_nodes(&ids);
            proof {
                mid.lemma_without_nodes(ids@);
                let t = huts.take(i + 1);
                assert(t.drop_last() =~= huts.take(i as int));
                assert(t.last() == huts[i as int]);
            }
        }
        proof {
            assert(huts.take(huts.len() as int) =~= huts);
            start.lemma_without_subtrees_keeps(huts);
        }
        if self.focused_output >= self.outputs.len() {
            self.focused_output = self.outputs.len() - 1;
        } else if self.focused_output > index {
            self.focused_output = self.focused_output - 1;
        }
    }

    /// The slot of this output, if it has one.
    pub fn output_index_for(&self, output: u64) -> (r: Option<usize>)
        ensures
            match r {
                Some(i) => {
                    &&& i < self@.slots.len()
                    &&& self@.slots[i as int].output == output
                    &&& forall|j: int|
                        0 <= j < i ==> (#[trigger] self@.slots[j]).output != output
                },
                None => forall|j: int|
                    0 <= j < self@.slots.len() ==> (#[trigger] self@.slots[j]).output != output,
            },
    {
        for i in 0..self.outputs.len()
            invariant
                forall|j: int| 0 <= j < i ==> (#[trigger] self@.slots[j]).output != output,
        {
            assert(self@.slots[i as int] == self.outputs@[i as int]@);
            if self.outputs[i].output == output {
                return Some(i);
            }
        }
        None
    }

    /// How many outputs there are.
    pub fn output_count(&self) -> (r: usize)
        ensures
            r == self@.slots.len(),
    {
        self.outputs.len()
    }

    /// The output that slot `index` shows on.
    pub fn output_at(&self, index: usize) -> (r: u64)
        requires
            index < self@.slots.len(),
        ensures
            r == self@.slots[index as int].output,
    {
        self.slot(index).output
    }

    /// The output that has input focus.
    pub fn focused_output(&self) -> (r: u64)
        requires
            self@.focused < self@.slots.len(),
        ensures
            r == self@.out().output,
    {
        self.output_at(self.focused_output)
    }

    /// Gives an output input focus, if there is such an output.
    pub fn set_focused_output(&mut self, index: usize)
        ensures
            final(self).same_frame(*old(self)),
            final(self)@ == (if index < old(self)@.slots.len() {
                StackView { focused: index, ..old(self)@ }
            } else {
                old(self)@
            }),
    {
        if index < self.outputs.len() {
            self.focused_output = index;
        }
    }

    /// An output's place in the shared space; the origin if there is no such
    /// output.
    pub fn output_position(&self, index: usize) -> (r: (i32, i32))
        ensures
            r == (if index < self@.slots.len() {
                self@.slots[index as int].position
            } else {
                (0i32, 0i32)
            }),
    {
        if index < self.outputs.len() {
            self.outputs[index].position
        } else {
            (0, 0)
        }
    }

    /// The first output that is hit; the focused one if none is. `hits[i]`
    /// tells whether the pointer is inside the rectangle of output `i`.
    pub fn output_index_at(&self, hits: &Vec<bool>) -> (r: usize)
        requires
            hits@.len() == self@.slots.len(),
        ensures
            if exists|i: int| 0 <= i < hits@.len() && hits@[i] {
                r < hits@.len() && hits@[r as int] && forall|j: int| 0 <= j < r ==> !hits@[j]
            } else {
                r == self@.focused
            },
    {
        for i in 0..hits.len()
            invariant
                forall|j: int| 0 <= j < i ==> !hits@[j],
        {
            if hits[i] {
                return i;
            }
        }
        self.focused_output
    }
}

impl GraphStack {
    // The focused output's stack, and any other output's.
    pub fn len(&self) -> (r: usize)
        requires
            self@.focused < self@.slots.len(),
        ensures
            r == self@.out().huts.len(),
    {
        self.slot(self.focused_output).len()
    }

    pub fn len_for(&self, output_index: usize) -> (r: usize)
        requires
            output_index < self@.slots.len(),
        ensures
            r == self@.slots[output_index as int].huts.len(),
    {
        self.slot(output_index).len()
    }

    pub fn is_empty(&self) -> (r: bool)
        requires
            self@.focused < self@.slots.len(),
        ensures
            r == (self@.out().huts.len() == 0),
    {
        self.slot(self.focused_output).is_empty()
    }

    pub fn is_previewing(&self) -> (r: bool)
        requires
            self@.focused < self@.slots.len(),
        ensures
            r == (self@.out().preview is Some),
    {
        self.slot(self.focused_output).is_previewing()
    }

    pub fn is_previewing_for(&self, output_index: usize) -> (r: bool)
        requires
            output_index < self@.slots.len(),
        ensures
            r == (self@.slots[output_index as int].preview is Some),
    {
        self.slot(output_index).is_previewing()
    }

    pub fn preview_index(&self) -> (r: usize)
        requires
            self@.focused < self@.slots.len(),
        ensures
            r == self@.out().preview_index(),
    {
        self.slot(self.focused_output).preview_index()
    }

    pub fn preview_index_for(&self, output_index: usize) -> (r: usize)
        requires
            output_index < self@.slots.len(),
        ensures
            r == self@.slots[output_index as int].preview_index(),
    {
        self.slot(output_index).preview_index()
    }

    pub fn panel_id(&self) -> (r: u64)
        requires
            self@.focused < self@.slots.len(),
        ensures
            r == self@.out().panel_id,
    {
        self.slot(self.focused_output).panel_id()
    }

    pub fn panel_id_for(&self, output_index: usize) -> (r: u64)
        requires
            output_index < self@.slots.len(),
        ensures
            r == self@.slots[output_index as int].panel_id,
    {
        self.slot(output_index).panel_id()
    }

    pub fn focused_top_level(&self) -> (r: NodeId)
        requires
            self@.focused < self@.slots.len(),
            self@.out().current < self@.out().huts.len(),
        ensures
            r == self@.out().huts[self@.out().current as int],
    {
        self.slot(self.focused_output).focused_top_level()
    }

    pub fn focused_top_level_for(&self, output_index: usize) -> (r: NodeId)
        requires
            output_index < self@.slots.len(),
            self@.slots[output_index as int].current < self@.slots[output_index as int].huts.len(),
        ensures
            r
                == self@.slots[output_index as int].huts[self@.slots[output_index as int].current as int],
    {
        self.slot(output_index).focused_top_level()
    }

    pub fn top_level_entries(&self) -> (r: &Vec<NodeId>)
        requires
            self@.focused < self@.slots.len(),
        ensures
            r@ == self@.out().huts,
    {
        self.slot(self.focused_output).top_level_entries()
    }

    pub fn top_level_entries_for(&self, output_index: usize) -> (r: &Vec<NodeId>)
        requires
            output_index < self@.slots.len(),
        ensures
            r@ == self@.slots[output_index as int].huts,
    {
        self.slot(output_index).top_level_entries()
    }

    /// Every top-level entry of every output.
    pub fn all_top_level_entries(&self) -> (r: Vec<NodeId>)
        ensures
            r@ == self@.tops(),
    {
        let mut out: Vec<NodeId> = Vec::new();
        assert(self@.slots.take(0) =~= Seq::empty());
        for i in 0..self.outputs.len()
            invariant
                out@ == tops_of(self@.slots.take(i as int)),
        {
            let ghost before = out@;
            let entries = &self.outputs[i].huts;
            for j in 0..entries.len()
                invariant
                    out@ == before + entries@.take(j as int),
            {
                out.push(entries[j]);
                assert(out@ =~= before + entries@.take(j + 1));
            }
            proof {
                assert(entries@.take(entries@.len() as int) =~= entries@);
                let t = self@.slots.take(i + 1);
                assert(t.drop_last() =~= self@.slots.take(i as int));
                assert(t.last() == self.outputs@[i as int]@);
            }
        }
        assert(self@.slots.take(self@.slots.len() as int) =~= self@.slots);
        out
    }

    // Starting consoles and moving through the stack.
    /// Appends a fresh console to the focused output's stack without moving
    /// focus. Nothing changes if it could not be started.
    pub fn spawn_and_insert(&mut self, fresh: Result<ConsoleHut, String>) -> (r: Result<
        u64,
        String,
    >)
        requires
            old(self)@.focused < old(self)@.slots.len(),
            fresh is Ok ==> old(self)@.next_id < u64::MAX,
        ensures
            final(self).same_frame(*old(self)),
            match fresh {
                Ok(hut) => r == Ok::<u64, String>(hut@.id) && final(self)@ == old(self)@.spawned(
                    old(self)@.focused as int,
                    hut@,
                ),
                Err(e) => r == Err::<u64, String>(e) && final(self)@ == old(self)@,
            },
            old(self)@.well_formed() ==> final(self)@.well_formed(),
    {
        proof {
            if old(self)@.well_formed() && fresh is Ok {
                old(self)@.law_spawn_keeps_well_formed(old(self)@.focused as int, fresh->Ok_0@);
            }
        }
        match fresh {
            Ok(hut) => Ok(self.put_console(self.focused_output, hut)),
            Err(e) => Err(e),
        }
    }

    /// [`Self::spawn_and_insert`] for a console that runs a command of its
    /// own. It counts as used from the start, so that passing over it never
    /// discards it.
    pub fn spawn_and_insert_with_command(&mut self, fresh: Result<ConsoleHut, String>) -> (r: Result<
        u64,
        String,
    >)
        requires
            old(self)@.focused < old(self)@.slots.len(),
            fresh is Ok ==> old(self)@.next_id < u64::MAX,
        ensures
            final(self).same_frame(*old(self)),
            match fresh {
                Ok(hut) => r == Ok::<u64, String>(hut@.id) && final(self)@ == old(self)@.spawned(
                    old(self)@.focused as int,
                    HutView { touched: true, ..hut@ },
                ),
                Err(e) => r == Err::<u64, String>(e) && final(self)@ == old(self)@,
            },
            old(self)@.well_formed() ==> final(self)@.well_formed(),
    {
        proof {
            if old(self)@.well_formed() && fresh is Ok {
                old(self)@.law_spawn_keeps_well_formed(
                    old(self)@.focused as int,
                    HutView { touched: true, ..fresh->Ok_0@ },
                );
            }
        }
        match fresh {
            Ok(hut) => {
                let mut hut = hut;
                hut.mark_touched();
                Ok(self.put_console(self.focused_output, hut))
            },
            Err(e) => Err(e),
        }
    }

    fn entry_used(&self, id: NodeId) -> (r: bool)
        ensures
            r == self@.used(id),
    {
        match self.graph.node(id) {
            Some(node) => {
                let r = node.touched();
                assert(self@.nodes[id] == node@);
                r
            },
            None => true,
        }
    }

    fn entry_kept(&self, pos: usize, protect: Option<usize>) -> (r: bool)
        requires
            self@.focused < self@.slots.len(),
            pos < self@.out().huts.len(),
        ensures
            r == self@.keeps(pos as int, protect),
    {
        let protected = match protect {
            Some(p) => p == pos,
            None => false,
        };
        protected || self.entry_used(self.top_level_entries()[pos])
    }

    fn discard(&mut self, pos: usize)
        requires
            old(self)@.focused < old(self)@.slots.len(),
            pos < old(self)@.out().huts.len(),
        ensures
            final(self)@ == old(self)@.discarded(pos as int),
            final(self).same_frame(*old(self)),
    {
        let i: usize = self.focused_output;
        let mut slot = self.slot_copy(i);
        let id = slot.huts.remove(pos);
        if pos < slot.current {
            slot.current = slot.current - 1;
        }
        self.drop_node(id);
        self.set_slot(i, slot);
    }

    fn would_spawn(&self, pos: usize, protect: Option<usize>) -> (r: bool)
        requires
            self@.focused < self@.slots.len(),
            self@.out().huts.len() == 0 || pos < self@.out().huts.len(),
        ensures
            r == self@.forward_spawns(pos as int, protect),
    {
        let n: usize = self.len();
        if n == 0 {
            true
        } else {
            pos + 1 >= n
        }
    }

    fn advance_forward(
        &mut self,
        pos: usize,
        protect: Option<usize>,
        fresh: Option<Result<ConsoleHut, String>>,
    ) -> (r: Result<usize, String>)
        requires
            old(self)@.focused < old(self)@.slots.len(),
            old(self)@.out().huts.len() == 0 || pos < old(self)@.out().huts.len(),
            old(self)@.forward_spawns(pos as int, protect) ==> fresh is Some,
            fresh is Some && fresh->0 is Ok ==> old(self)@.next_id < u64::MAX,
        ensures
            final(self).same_frame(*old(self)),
            ({
                let (s, p) = old(self)@.left_forward(pos as int, protect);
                if !old(self)@.forward_spawns(pos as int, protect) {
                    r == Ok::<usize, String>(p as usize) && final(self)@ == s
                } else {
                    match fresh->0 {
                        Ok(hut) => {
                            &&& r == Ok::<usize, String>(p as usize)
                            &&& final(self)@ == s.spawned(s.focused as int, hut@)
                        },
                        Err(e) => r == Err::<usize, String>(e) && final(self)@ == s,
                    }
                }
            }),
            old(self)@.left_forward(pos as int, protect).1 <= usize::MAX,
    {
        let n: usize = self.len();
        let mut at: usize = pos;
        if n == 0 {
            at = 0;
        } else if self.entry_kept(pos, protect) {
            at = pos + 1;
        } else {
            self.discard(pos);
        }
        if at >= self.len() {
            match fresh {
                Some(Ok(hut)) => {
                    self.put_console(self.focused_output, hut);
                    Ok(at)
                },
                Some(Err(e)) => Err(e),
                None => Ok(at),
            }
        } else {
            Ok(at)
        }
    }

    fn advance_backward(&mut self, pos: usize, protect: Option<usize>) -> (r: usize)
        requires
            old(self)@.focused < old(self)@.slots.len(),
            old(self)@.out().huts.len() == 0 || pos < old(self)@.out().huts.len(),
        ensures
            final(self).same_frame(*old(self)),
            r == old(self)@.backward(pos as int, protect).1,
            final(self)@ == old(self)@.backward(pos as int, protect).0,
    {
        if pos == 0 || self.is_empty() {
            return pos;
        }
        if !self.entry_kept(pos, protect) {
            self.discard(pos);
        }
        pos - 1
    }

    fn set_current(&mut self, pos: usize)
        requires
            old(self)@.focused < old(self)@.slots.len(),
        ensures
            final(self)@ == old(self)@.at(pos as int),
            final(self).same_frame(*old(self)),
    {
        let i: usize = self.focused_output;
        let mut slot = self.slot_copy(i);
        slot.current = pos;
        self.set_slot(i, slot);
    }

    fn set_preview(&mut self, pos: usize)
        requires
            old(self)@.focused < old(self)@.slots.len(),
        ensures
            final(self)@ == old(self)@.previewing(pos as int),
            final(self).same_frame(*old(self)),
    {
        let i: usize = self.focused_output;
        let mut slot = self.slot_copy(i);
        slot.preview = Some(pos);
        self.set_slot(i, slot);
    }

    /// Whether [`Self::next`] needs a fresh console.
    pub fn next_spawns(&self) -> (r: bool)
        requires
            self@.focused < self@.slots.len(),
            self@.out().huts.len() == 0 || self@.out().current < self@.out().huts.len(),
        ensures
            r == self@.forward_spawns(self@.out().current as int, None),
    {
        self.would_spawn(self.slot(self.focused_output).current, None)
    }

    /// Moves on to the next entry. One never used is discarded when left; past
    /// the end a fresh console is appended.
    pub fn next(&mut self, fresh: Option<Result<ConsoleHut, String>>) -> (r: Result<(), String>)
        requires
            old(self)@.focused < old(self)@.slots.len(),
            old(self)@.out().huts.len() == 0 || old(self)@.out().current < old(
                self,
            )@.out().huts.len(),
            old(self)@.forward_spawns(old(self)@.out().current as int, None) ==> fresh is Some,
            fresh is Some && fresh->0 is Ok ==> old(self)@.next_id < u64::MAX,
        ensures
            final(self).same_frame(*old(self)),
            ({
                let pos = old(self)@.out().current as int;
                let (s, p) = old(self)@.left_forward(pos, None);
                if !old(self)@.forward_spawns(pos, None) {
                    r == Ok::<(), String>(()) && final(self)@ == s.at(p)
                } else {
                    match fresh->0 {
                        Ok(hut) => r == Ok::<(), String>(()) && final(self)@ == s.spawned(
                            s.focused as int,
                            hut@,
                        ).at(p),
                        Err(e) => r == Err::<(), String>(e) && final(self)@ == s,
                    }
                }
            }),
            old(self)@.well_formed() && old(self)@.out().preview is None && r is Ok
                ==> final(self)@.well_formed(),
            old(self)@.well_formed() ==> final(self)@.sound(),
    {
        proof {
            if old(self)@.well_formed() {
                let f = old(self)@.focused as int;
                assert(old(self)@.slots[f].current < old(self)@.slots[f].huts.len());
                old(self)@.lemma_next_sound(fresh);
            }
            let pos = old(self)@.out().current as int;
            if old(self)@.well_formed() && old(self)@.out().preview is None && (!old(
                self,
            )@.forward_spawns(pos, None) || fresh->0 is Ok) {
                let hut = if old(self)@.forward_spawns(pos, None) {
                    fresh->0->Ok_0@
                } else {
                    arbitrary()
                };
                old(self)@.law_next_keeps_well_formed(hut);
            }
        }
        let pos: usize = self.slot(self.focused_output).current;
        match self.advance_forward(pos, None, fresh) {
            Ok(at) => {
                self.set_current(at);
                Ok(())
            },
            Err(e) => Err(e),
        }
    }

    /// Moves back to the entry before. One never used is discarded when left.
    pub fn prev(&mut self)
        requires
            old(self)@.focused < old(self)@.slots.len(),
            old(self)@.out().huts.len() == 0 || old(self)@.out().current < old(
                self,
            )@.out().huts.len(),
        ensures
            final(self).same_frame(*old(self)),
            ({
                let (s, p) = old(self)@.backward(old(self)@.out().current as int, None);
                final(self)@ == s.at(p)
            }),
            old(self)@.well_formed() && old(self)@.out().preview is None
                ==> final(self)@.well_formed(),
            old(self)@.well_formed() ==> final(self)@.sound(),
    {
        proof {
            if old(self)@.well_formed() {
                old(self)@.lemma_prev_sound();
            }
            if old(self)@.well_formed() && old(self)@.out().preview is None {
                old(self)@.law_prev_keeps_well_formed();
            }
        }
        let pos: usize = self.slot(self.focused_output).current;
        let at: usize = self.advance_backward(pos, None);
        self.set_current(at);
    }

    /// Whether [`Self::preview_next`] needs a fresh console.
    pub fn preview_next_spawns(&self) -> (r: bool)
        requires
            self@.focused < self@.slots.len(),
            self@.out().huts.len() == 0 || self@.out().preview_index() < self@.out().huts.len(),
        ensures
            r == self@.forward_spawns(
                self@.out().preview_index() as int,
                Some(self@.out().current),
            ),
    {
        let current: usize = self.slot(self.focused_output).current;
        self.would_spawn(self.preview_index(), Some(current))
    }

    /// Moves the preview on to the next entry, opening a preview session if
    /// none is. The current entry is never discarded by it.
    pub fn preview_next(&mut self, fresh: Option<Result<ConsoleHut, String>>) -> (r: Result<
        (),
        String,
    >)
        requires
            old(self)@.focused < old(self)@.slots.len(),
            old(self)@.out().huts.len() == 0 || old(self)@.out().preview_index() < old(
                self,
            )@.out().huts.len(),
            old(self)@.forward_spawns(
                old(self)@.out().preview_index() as int,
                Some(old(self)@.out().current),
            ) ==> fresh is Some,
            fresh is Some && fresh->0 is Ok ==> old(self)@.next_id < u64::MAX,
        ensures
            final(self).same_frame(*old(self)),
            ({
                let pos = old(self)@.out().preview_index() as int;
                let protect = Some(old(self)@.out().current);
                let (s, p) = old(self)@.left_forward(pos, protect);
                if !old(self)@.forward_spawns(pos, protect) {
                    r == Ok::<(), String>(()) && final(self)@ == s.previewing(p)
                } else {
                    match fresh->0 {
                        Ok(hut) => r == Ok::<(), String>(()) && final(self)@ == s.spawned(
                            s.focused as int,
                            hut@,
                        ).previewing(p),
                        Err(e) => r == Err::<(), String>(e) && final(self)@ == s,
                    }
                }
            }),
            old(self)@.well_formed() && r is Ok ==> final(self)@.well_formed(),
            old(self)@.well_formed() && r is Ok ==> final(self)@.shows_the_same(old(self)@),
    {
        proof {
            let pos = old(self)@.out().preview_index() as int;
            let protect = Some(old(self)@.out().current);
            if old(self)@.well_formed() && (!old(self)@.forward_spawns(pos, protect)
                || fresh->0 is Ok) {
                let hut = if old(self)@.forward_spawns(pos, protect) {
                    fresh->0->Ok_0@
                } else {
                    arbitrary()
                };
                old(self)@.law_preview_next_keeps_well_formed(hut);
            }
        }
        let current: usize = self.slot(self.focused_output).current;
        let pos: usize = self.preview_index();
        match self.advance_forward(pos, Some(current), fresh) {
            Ok(at) => {
                self.set_preview(at);
                Ok(())
            },
            Err(e) => Err(e),
        }
    }

    /// Moves the preview back to the entry before. Without a preview session
    /// one is opened at the last entry.
    pub fn preview_prev(&mut self)
        requires
            old(self)@.focused < old(self)@.slots.len(),
            old(self)@.out().preview is Some ==> old(self)@.out().huts.len() == 0 || old(
                self,
            )@.out().preview->0 < old(self)@.out().huts.len(),
        ensures
            final(self).same_frame(*old(self)),
            final(self)@ == (match old(self)@.out().preview {
                Some(pos) => {
                    let (s, p) = old(self)@.backward(
                        pos as int,
                        Some(old(self)@.out().current),
                    );
                    s.previewing(p)
                },
                None => old(self)@.previewing(
                    if old(self)@.out().huts.len() > 0 {
                        old(self)@.out().huts.len() - 1
                    } else {
                        0
                    },
                ),
            }),
            old(self)@.well_formed() ==> final(self)@.well_formed(),
            old(self)@.well_formed() ==> final(self)@.shows_the_same(old(self)@),
    {
        proof {
            if old(self)@.well_formed() {
                old(self)@.law_preview_prev_keeps_well_formed();
                let f = old(self)@.focused as int;
                assert(old(self)@.slots[f].current < old(self)@.slots[f].huts.len());
            }
        }
        let current: usize = self.slot(self.focused_output).current;
        let at: usize = match self.slot(self.focused_output).preview {
            Some(pos) => self.advance_backward(pos, Some(current)),
            None => self.len().saturating_sub(1),
        };
        self.set_preview(at);
    }

    /// Ends the preview session: the previewed entry moves to the front,
    /// counts as used from now on, and becomes the current one.
    pub fn commit_preview(&mut self)
        requires
            old(self)@.focused < old(self)@.slots.len(),
        ensures
            final(self).same_frame(*old(self)),
            final(self)@ == old(self)@.committed(),
            old(self)@.well_formed() ==> final(self)@.well_formed(),
    {
        proof {
            if old(self)@.well_formed() {
                old(self)@.law_commit_keeps_well_formed();
            }
        }
        let i: usize = self.focused_output;
        let mut slot = self.slot_copy(i);
        match slot.preview {
            None => {},
            Some(pos) => {
                slot.preview = None;
                if pos < slot.huts.len() {
                    let id = slot.huts.remove(pos);
                    self.mark(id);
                    slot.huts.insert(0, id);
                    assert(slot.huts@ =~= seq![id] + old(self)@.out().huts.remove(pos as int));
                }
                slot.current = 0;
                self.set_slot(i, slot);
            },
        }
    }
}

/// Where `id` first occurs in the list.
fn first_position(s: &Vec<NodeId>, id: NodeId) -> (r: Option<usize>)
    ensures
        match r {
            Some(i) => s@.contains(id) && i < s@.len() && i == s@.index_of_first(id)->0,
            None => !s@.contains(id),
        },
{
    proof {
        s@.index_of_first_ensures(id);
    }
    for i in 0..s.len()
        invariant
            forall|j: int| 0 <= j < i ==> s@[j] != id,
    {
        if s[i].0 == id.0 {
            proof {
                assert(s@[i as int] == id);
                s@.index_of_first_ensures(id);
                let f = s@.index_of_first(id)->0;
                if f < i {
                    assert(s@[f] != id);
                } else if i < f {
                    assert(s@[i as int] != id);
                }
            }
            return Some(i);
        }
    }
    None
}

proof fn lemma_first_console_split(
    nodes: Map<NodeId, NodeView>,
    ids: Seq<NodeId>,
    hut: u64,
    i: int,
)
    requires
        0 <= i <= ids.len(),
        forall|j: int| 0 <= j < i ==> !is_console(nodes, #[trigger] ids[j], hut),
    ensures
        first_console(nodes, ids, hut) == first_console(nodes, ids.skip(i), hut),
    decreases i,
{
    if i > 0 {
        assert(!is_console(nodes, ids[0], hut));
        let t = ids.drop_first();
        assert forall|j: int| 0 <= j < i - 1 implies !is_console(nodes, #[trigger] t[j], hut) by {
            assert(t[j] == ids[j + 1]);
        }
        lemma_first_console_split(nodes, t, hut, i - 1);
        assert(t.skip(i - 1) =~= ids.skip(i));
    } else {
        assert(ids.skip(0) =~= ids);
    }
}

proof fn lemma_first_parent_split(k: crate::tree::Kids, ids: Seq<NodeId>, target: NodeId, i: int)
    requires
        0 <= i <= ids.len(),
        forall|j: int| 0 <= j < i ==> !kids_of(k, #[trigger] ids[j]).contains(target),
    ensures
        first_parent(k, ids, target) == first_parent(k, ids.skip(i), target),
    decreases i,
{
    if i > 0 {
        assert(!kids_of(k, ids[0]).contains(target));
        let t = ids.drop_first();
        assert forall|j: int| 0 <= j < i - 1 implies !kids_of(k, #[trigger] t[j]).contains(
            target,
        ) by {
            assert(t[j] == ids[j + 1]);
        }
        lemma_first_parent_split(k, t, target, i - 1);
        assert(t.skip(i - 1) =~= ids.skip(i));
    } else {
        assert(ids.skip(0) =~= ids);
    }
}

proof fn lemma_first_slot_split(slots: Seq<SlotView>, id: NodeId, i: int)
    requires
        0 <= i <= slots.len(),
        forall|j: int| 0 <= j < i ==> !(#[trigger] slots[j]).huts.contains(id),
        i < slots.len() ==> slots[i].huts.contains(id),
    ensures
        first_slot_with(slots, id) == i,
    decreases i,
{
    if i > 0 {
        assert(!slots[0].huts.contains(id));
        let t = slots.drop_first();
        assert forall|j: int| 0 <= j < i - 1 implies !(#[trigger] t[j]).huts.contains(id) by {
            assert(t[j] == slots[j + 1]);
        }
        lemma_first_slot_split(t, id, i - 1);
    }
}

proof fn lemma_first_slot_bounds(slots: Seq<SlotView>, id: NodeId)
    ensures
        0 <= first_slot_with(slots, id) <= slots.len(),
    decreases slots.len(),
{
    if slots.len() > 0 && !slots[0].huts.contains(id) {
        lemma_first_slot_bounds(slots.drop_first(), id);
    }
}

impl GraphStack {
    proof fn lemma_paths(self, id: NodeId)
        requires
            acyclic(self@.kids),
        ensures
            self.graph@.focus_ends(id),
            self.graph@.path(id) == self@.path(id),
            self@.path(id).len() > 0,
    {
        let a = |i: NodeId| self.graph@.focus_step(i);
        let b = |i: NodeId| self@.focus_step(i);
        assert forall|i: NodeId| #[trigger] a(i) == b(i) by {
            if self.graph@.nodes.contains_key(i) {
                assert(self@.nodes[i] == self.graph@.nodes[i]@);
                assert(children_in(self.graph@.hut_lists, i) == kids_of(self@.kids, i));
            }
        }
        assert(a =~= b);
        assert forall|i: NodeId| (#[trigger] b(i)) is Some implies kids_of(
            self@.kids,
            i,
        ).contains(b(i)->0) by {
            let n = self@.nodes[i];
            let active = match n {
                NodeView::Tab { active, .. } => active,
                NodeView::Tile { active, .. } => active,
                NodeView::Console(_) => 0,
            };
            assert(kids_of(self@.kids, i)[active as int] == b(i)->0);
        }
        lemma_step_ends(self@.kids, b, id);
        law_path_unfolds(b, id);
    }

    // Finding consoles.
    /// Every node under any top-level entry of any output.
    pub fn all_node_ids(&self) -> (r: Vec<NodeId>)
        requires
            acyclic(self@.kids),
        ensures
            r@ == self@.all_ids(),
    {
        let tops = self.all_top_level_entries();
        collect_subtrees(&self.graph, &tops)
    }

    fn all_node_ids_for(&self, output_index: usize) -> (r: Vec<NodeId>)
        requires
            acyclic(self@.kids),
            output_index < self@.slots.len(),
        ensures
            r@ == self@.ids_on(output_index as int),
    {
        collect_subtrees(&self.graph, self.top_level_entries_for(output_index))
    }

    fn console_among(&self, ids: &Vec<NodeId>, id: u64) -> (r: Option<NodeId>)
        ensures
            r == first_console(self@.nodes, ids@, id),
            r is Some ==> is_console(self@.nodes, r->0, id) && ids@.contains(r->0),
    {
        for i in 0..ids.len()
            invariant
                forall|j: int| 0 <= j < i ==> !is_console(self@.nodes, #[trigger] ids@[j], id),
        {
            let found = match self.graph.node(ids[i]) {
                Some(HutNode::Console(hut)) => {
                    assert(self@.nodes[ids@[i as int]] == NodeView::Console(hut@));
                    hut.id() == id
                },
                Some(other) => {
                    assert(self@.nodes[ids@[i as int]] == other@);
                    false
                },
                None => false,
            };
            assert(found == is_console(self@.nodes, ids@[i as int], id));
            if found {
                proof {
                    lemma_first_console_split(self@.nodes, ids@, id, i as int);
                    assert(ids@.skip(i as int)[0] == ids@[i as int]);
                }
                return Some(ids[i]);
            }
        }
        proof {
            lemma_first_console_split(self@.nodes, ids@, id, ids@.len() as int);
        }
        None
    }

    /// The first console that holds a client surface, as a Main Window or
    /// under one.
    pub(crate) fn holder_of(&self, surface: u64) -> (r: Option<NodeId>)
        requires
            acyclic(self@.kids),
        ensures
            r == first_holder(self@.nodes, self@.all_ids(), surface),
            r is Some ==> is_holder(self@.nodes, r->0, surface),
    {
        let ids = self.all_node_ids();
        assert(ids@.skip(0) =~= ids@);
        for i in 0..ids.len()
            invariant
                ids@ == self@.all_ids(),
                first_holder(self@.nodes, ids@, surface) == first_holder(
                    self@.nodes,
                    ids@.skip(i as int),
                    surface,
                ),
        {
            let found = match self.graph.node(ids[i]) {
                Some(HutNode::Console(hut)) => {
                    assert(self@.nodes[ids@[i as int]] == NodeView::Console(hut@));
                    hut.holds_window(surface)
                },
                Some(other) => {
                    assert(self@.nodes[ids@[i as int]] == other@);
                    false
                },
                None => false,
            };
            assert(found == is_holder(self@.nodes, ids@[i as int], surface));
            assert(ids@.skip(i as int).drop_first() =~= ids@.skip(i + 1));
            assert(ids@.skip(i as int)[0] == ids@[i as int]);
            if found {
                return Some(ids[i]);
            }
        }
        None
    }

    /// Which output's stack holds the console, if any does.
    pub fn output_index_for_hut(&self, hut_id: u64) -> (r: Option<usize>)
        requires
            acyclic(self@.kids),
        ensures
            r == (if self@.output_of(hut_id, 0) < self@.slots.len() {
                Some(self@.output_of(hut_id, 0) as usize)
            } else {
                None::<usize>
            }),
    {
        for i in 0..self.outputs.len()
            invariant
                acyclic(self@.kids),
                self@.output_of(hut_id, 0) == self@.output_of(hut_id, i as int),
        {
            let ids = self.all_node_ids_for(i);
            if self.console_among(&ids, hut_id).is_some() {
                return Some(i);
            }
        }
        None
    }

    pub(crate) fn console_mut(&mut self, node: NodeId) -> (r: Option<&mut ConsoleHut>)
        requires
            old(self)@.nodes.contains_key(node),
            old(self)@.nodes[node] is Console,
        ensures
            final(self).same_frame(*old(self)),
            r is Some,
            r->0@ == old(self)@.nodes[node]->Console_0,
            final(self)@ == old(self)@.with_console(node, final(r->0)@),
    {
        proof {
            let g = self.graph@;
            assert(self@.nodes[node] == g.nodes[node]@);
            assert forall|n: HutNode| #[trigger]
                node_views(g.nodes.insert(node, n)) == node_views(g.nodes).insert(node, n@) by {
                lemma_graph_with_node(g, node, n);
            }
        }
        match self.graph.node_mut(node) {
            Some(HutNode::Console(hut)) => Some(hut),
            _ => None,
        }
    }

    /// The console with this id, on whatever output it is.
    pub fn find(&self, id: u64) -> (r: Option<&ConsoleHut>)
        requires
            acyclic(self@.kids),
        ensures
            match r {
                Some(hut) => {
                    let node = first_console(self@.nodes, self@.all_ids(), id);
                    &&& node is Some
                    &&& self@.nodes.contains_key(node->0)
                    &&& NodeView::Console(hut@) == self@.nodes[node->0]
                    &&& hut@.id == id
                },
                None => first_console(self@.nodes, self@.all_ids(), id) is None,
            },
    {
        let ids = self.all_node_ids();
        match self.console_among(&ids, id) {
            Some(node) => {
                assert(self@.nodes[node] == self.graph@.nodes[node]@);
                match self.graph.node(node) {
                    Some(HutNode::Console(hut)) => Some(hut),
                    _ => None,
                }
            },
            None => None,
        }
    }

    /// The console with this id, on whatever output it is, to be changed in
    /// place.
    pub fn find_mut(&mut self, id: u64) -> (r: Option<&mut ConsoleHut>)
        requires
            acyclic(old(self)@.kids),
        ensures
            final(self).same_frame(*old(self)),
            match r {
                Some(hut) => {
                    let node = first_console(old(self)@.nodes, old(self)@.all_ids(), id);
                    &&& node is Some
                    &&& old(self)@.nodes.contains_key(node->0)
                    &&& NodeView::Console(hut@) == old(self)@.nodes[node->0]
                    &&& hut@.id == id
                    &&& final(self)@ == old(self)@.with_console(node->0, final(hut)@)
                },
                None => first_console(old(self)@.nodes, old(self)@.all_ids(), id) is None
                    && final(self)@ == old(self)@,
            },
    {
        let ids = self.all_node_ids();
        match self.console_among(&ids, id) {
            Some(node) => self.console_mut(node),
            None => None,
        }
    }

    /// [`Self::find_mut`] among one output's own subtrees; `None` if there is
    /// no such output.
    pub fn find_mut_for(&mut self, output_index: usize, id: u64) -> (r: Option<&mut ConsoleHut>)
        requires
            acyclic(old(self)@.kids),
        ensures
            final(self).same_frame(*old(self)),
            match r {
                Some(hut) => {
                    let node = first_console(
                        old(self)@.nodes,
                        old(self)@.ids_on(output_index as int),
                        id,
                    );
                    &&& output_index < old(self)@.slots.len()
                    &&& node is Some
                    &&& old(self)@.nodes.contains_key(node->0)
                    &&& NodeView::Console(hut@) == old(self)@.nodes[node->0]
                    &&& hut@.id == id
                    &&& final(self)@ == old(self)@.with_console(node->0, final(hut)@)
                },
                None => (output_index >= old(self)@.slots.len() || first_console(
                    old(self)@.nodes,
                    old(self)@.ids_on(output_index as int),
                    id,
                ) is None) && final(self)@ == old(self)@,
            },
    {
        if output_index >= self.outputs.len() {
            return None;
        }
        let ids = self.all_node_ids_for(output_index);
        match self.console_among(&ids, id) {
            Some(node) => self.console_mut(node),
            None => None,
        }
    }

    /// [`Self::find_mut_for`], and where that finds nothing, the search over
    /// every output.
    pub fn find_mut_for_hint(&mut self, output_index: usize, id: u64) -> (r: Option<
        &mut ConsoleHut,
    >)
        requires
            acyclic(old(self)@.kids),
        ensures
            final(self).same_frame(*old(self)),
            ({
                let hinted = if output_index < old(self)@.slots.len() {
                    first_console(old(self)@.nodes, old(self)@.ids_on(output_index as int), id)
                } else {
                    None
                };
                let node = if hinted is Some {
                    hinted
                } else {
                    first_console(old(self)@.nodes, old(self)@.all_ids(), id)
                };
                match r {
                    Some(hut) => {
                        &&& node is Some
                        &&& old(self)@.nodes.contains_key(node->0)
                        &&& NodeView::Console(hut@) == old(self)@.nodes[node->0]
                        &&& hut@.id == id
                        &&& final(self)@ == old(self)@.with_console(node->0, final(hut)@)
                    },
                    None => node is None && final(self)@ == old(self)@,
                }
            }),
    {
        let hinted = if output_index < self.outputs.len() {
            let ids = self.all_node_ids_for(output_index);
            self.console_among(&ids, id)
        } else {
            None
        };
        let node = match hinted {
            Some(node) => Some(node),
            None => {
                let ids = self.all_node_ids();
                self.console_among(&ids, id)
            },
        };
        match node {
            Some(node) => self.console_mut(node),
            None => None,
        }
    }

    fn consoles_among(&self, ids: &Vec<NodeId>) -> (r: Vec<&ConsoleHut>)
        ensures
            r@.map_values(|h: &ConsoleHut| h@) == consoles(self@.nodes, ids@),
    {
        let mut out: Vec<&ConsoleHut> = Vec::new();
        proof {
            assert(ids@.take(0) =~= Seq::empty());
            assert(out@.map_values(|h: &ConsoleHut| h@) =~= consoles(self@.nodes, ids@.take(0)));
        }
        for i in 0..ids.len()
            invariant
                out@.map_values(|h: &ConsoleHut| h@) == consoles(self@.nodes, ids@.take(i as int)),
        {
            let ghost before = out@;
            proof {
                let t = ids@.take(i + 1);
                assert(t.drop_last() =~= ids@.take(i as int));
                assert(t.last() == ids@[i as int]);
            }
            match self.graph.node(ids[i]) {
                Some(HutNode::Console(hut)) => {
                    assert(self@.nodes[ids@[i as int]] == NodeView::Console(hut@));
                    out.push(hut);
                    assert(out@.map_values(|h: &ConsoleHut| h@) =~= before.map_values(
                        |h: &ConsoleHut| h@,
                    ).push(hut@));
                },
                Some(other) => {
                    assert(self@.nodes[ids@[i as int]] == other@);
                },
                None => {},
            }
        }
        assert(ids@.take(ids@.len() as int) =~= ids@);
        out
    }

    /// Every console on any output.
    pub fn all_huts(&self) -> (r: Vec<&ConsoleHut>)
        requires
            acyclic(self@.kids),
        ensures
            r@.map_values(|h: &ConsoleHut| h@) == consoles(self@.nodes, self@.all_ids()),
    {
        let ids = self.all_node_ids();
        self.consoles_among(&ids)
    }

    /// Every console on one output.
    pub fn all_huts_for(&self, output_index: usize) -> (r: Vec<&ConsoleHut>)
        requires
            acyclic(self@.kids),
            output_index < self@.slots.len(),
        ensures
            r@.map_values(|h: &ConsoleHut| h@) == consoles(
                self@.nodes,
                self@.ids_on(output_index as int),
            ),
    {
        let ids = self.all_node_ids_for(output_index);
        self.consoles_among(&ids)
    }

    /// For each top-level entry of any output, the console that focus comes
    /// to rest on under it.
    pub fn top_level_huts(&self) -> (r: Vec<&ConsoleHut>)
        requires
            acyclic(self@.kids),
        ensures
            r@.map_values(|h: &ConsoleHut| h@) == consoles(
                self@.nodes,
                self@.tops().map_values(|id: NodeId| self@.path(id).last()),
            ),
    {
        let tops = self.all_top_level_entries();
        let mut leaves: Vec<NodeId> = Vec::new();
        for i in 0..tops.len()
            invariant
                acyclic(self@.kids),
                tops@ == self@.tops(),
                leaves@.len() == i,
                forall|j: int|
                    0 <= j < i ==> #[trigger] leaves@[j] == self@.path(tops@[j]).last(),
        {
            proof {
                self.lemma_paths(tops@[i as int]);
            }
            leaves.push(self.graph.focused_leaf(tops[i]));
        }
        assert(leaves@ =~= self@.tops().map_values(|id: NodeId| self@.path(id).last()));
        self.consoles_among(&leaves)
    }

    pub(crate) fn console_under(&self, top: NodeId) -> (r: Option<&ConsoleHut>)
        requires
            acyclic(self@.kids),
        ensures
            r is Some == self@.focus_lands(top),
            r is Some ==> r->0@ == self@.focused_console(top),
    {
        proof {
            self.lemma_paths(top);
        }
        let leaf = self.graph.focused_leaf(top);
        match self.graph.node(leaf) {
            Some(HutNode::Console(hut)) => {
                assert(self@.nodes[leaf] == NodeView::Console(hut@));
                Some(hut)
            },
            Some(other) => {
                assert(self@.nodes[leaf] == other@);
                None
            },
            None => None,
        }
    }

    /// The console that has focus on the focused output.
    pub fn focused(&self) -> (r: &ConsoleHut)
        requires
            acyclic(self@.kids),
            self@.focused < self@.slots.len(),
            self@.out().current < self@.out().huts.len(),
            self@.focus_lands(self@.out().huts[self@.out().current as int]),
        ensures
            r@ == self@.focused_console(self@.out().huts[self@.out().current as int]),
    {
        self.console_under(self.focused_top_level()).unwrap()
    }

    /// [`Self::focused`], for any output.
    pub fn focused_for(&self, output_index: usize) -> (r: &ConsoleHut)
        requires
            acyclic(self@.kids),
            output_index < self@.slots.len(),
            self@.slots[output_index as int].current < self@.slots[output_index as int].huts.len(),
            self@.focus_lands(
                self@.slots[output_index as int].huts[self@.slots[output_index as int].current as int],
            ),
        ensures
            r@ == self@.focused_console(
                self@.slots[output_index as int].huts[self@.slots[output_index as int].current as int],
            ),
    {
        self.console_under(self.focused_top_level_for(output_index)).unwrap()
    }

    /// [`Self::focused_for`], to be changed in place.
    pub fn focused_mut_for(&mut self, output_index: usize) -> (r: &mut ConsoleHut)
        requires
            acyclic(old(self)@.kids),
            output_index < old(self)@.slots.len(),
            old(self)@.slots[output_index as int].current < old(
                self,
            )@.slots[output_index as int].huts.len(),
            old(self)@.focus_lands(
                old(self)@.slots[output_index as int].huts[old(
                    self,
                )@.slots[output_index as int].current as int],
            ),
        ensures
            final(self).same_frame(*old(self)),
            ({
                let o = old(self)@.slots[output_index as int];
                let top = o.huts[o.current as int];
                &&& r@ == old(self)@.focused_console(top)
                &&& final(self)@ == old(self)@.with_console(
                    old(self)@.path(top).last(),
                    final(r)@,
                )
            }),
    {
        let top = self.focused_top_level_for(output_index);
        proof {
            self.lemma_paths(top);
        }
        let leaf = self.graph.focused_leaf(top);
        self.console_mut(leaf).unwrap()
    }

    /// [`Self::focused`], to be changed in place.
    pub fn focused_mut(&mut self) -> (r: &mut ConsoleHut)
        requires
            acyclic(old(self)@.kids),
            old(self)@.focused < old(self)@.slots.len(),
            old(self)@.out().current < old(self)@.out().huts.len(),
            old(self)@.focus_lands(old(self)@.out().huts[old(self)@.out().current as int]),
        ensures
            final(self).same_frame(*old(self)),
            ({
                let top = old(self)@.out().huts[old(self)@.out().current as int];
                &&& r@ == old(self)@.focused_console(top)
                &&& final(self)@ == old(self)@.with_console(
                    old(self)@.path(top).last(),
                    final(r)@,
                )
            }),
    {
        let i: usize = self.focused_output;
        self.focused_mut_for(i)
    }

    /// Whether the terminal, rather than a Main Window, is what shows under
    /// `top`, given whether `top` is tiled.
    pub fn shows_terminal_effective_given_tiled(&self, top: NodeId, is_tiled: bool) -> (r: bool)
        requires
            acyclic(self@.kids),
        ensures
            r == (is_tiled || (self@.focus_lands(top) ==> self@.focused_console(
                top,
            ).showing_terminal || self@.focused_console(top).windows.len() == 0)),
    {
        if is_tiled {
            return true;
        }
        match self.console_under(top) {
            Some(hut) => hut.showing_terminal() || hut.main_window_count() == 0,
            None => true,
        }
    }

    /// Whether the terminal, rather than a Main Window, is what shows under
    /// `top`. A tiled entry only ever shows terminals.
    pub fn shows_terminal_effective(&self, top: NodeId) -> (r: bool)
        requires
            acyclic(self@.kids),
        ensures
            r == ((self@.nodes.contains_key(top) && self@.nodes[top] is Tile && kids_of(
                self@.kids,
                top,
            ).len() >= 2) || (self@.focus_lands(top) ==> self@.focused_console(
                top,
            ).showing_terminal || self@.focused_console(top).windows.len() == 0)),
    {
        let tiled = crate::graph_nodes::is_effectively_tiled(&self.graph, top);
        proof {
            if self.graph@.nodes.contains_key(top) {
                assert(self@.nodes[top] == self.graph@.nodes[top]@);
            }
        }
        self.shows_terminal_effective_given_tiled(top, tiled)
    }

    // Wrapping, cycling and removing.
    /// Puts `new_id` in the place of `old_id` among `parent`'s children, if it
    /// is one of them.
    fn swap_child_in_place(&mut self, parent: NodeId, old_id: NodeId, new_id: NodeId)
        requires
            old(self)@.kids.contains_key(parent) ==> old(self)@.nodes.contains_key(parent) && !(
            old(self)@.nodes[parent] is Console),
        ensures
            final(self)@ == old(self)@.child_swapped(parent, old_id, new_id),
            final(self).same_frame(*old(self)),
    {
        let mut children = self.graph.hut_list_input(parent, "children");
        assert(children@ == kids_of(self@.kids, parent));
        match first_position(&children, old_id) {
            None => {},
            Some(at) => {
                children.set(at, new_id);
                self.set_children(parent, children);
                let ghost mid = self.graph@;
                assert(self@.nodes[parent] == mid.nodes[parent]@);
                match self.graph.node_mut(parent) {
                    Some(HutNode::Tile(tile)) => {
                        match tile.fracs.remove(&old_id) {
                            Some(frac) => {
                                tile.fracs.insert(new_id, frac);
                            },
                            None => {},
                        }
                    },
                    Some(HutNode::Tab(tab)) => {
                        tab.child_chrome.remove(&old_id);
                    },
                    _ => {},
                }
                proof {
                    let n = self.graph@.nodes[parent];
                    lemma_graph_with_node(mid, parent, n);
                    assert(self.graph@.nodes =~= mid.nodes.insert(parent, n));
                    let was = mid.nodes[parent]@;
                    match was {
                        NodeView::Tile { axis, active, fracs } => {
                            if !fracs.contains_key(old_id) {
                                assert(fracs.remove(old_id) =~= fracs);
                            }
                        },
                        _ => {},
                    }
                    assert(n@ == node_child_swapped(was, old_id, new_id));
                }
            },
        }
    }

    fn repoint(&mut self, old_id: NodeId, new_id: NodeId)
        requires
            old(self)@.shaped(),
        ensures
            final(self)@ == old(self)@.repointed(old_id, new_id),
            final(self).same_frame(*old(self)),
    {
        let n: usize = self.outputs.len();
        let ghost start = self@;
        for i in 0..n
            invariant
                n == start.slots.len(),
                self@.nodes == start.nodes,
                self@.kids == start.kids,
                self@.next_id == start.next_id,
                self@.focused == start.focused,
                self@.slots.len() == n,
                self.same_frame(*old(self)),
                forall|j: int|
                    0 <= j < i ==> (#[trigger] self@.slots[j]) == (SlotView {
                        huts: replaced(start.slots[j].huts, old_id, new_id),
                        ..start.slots[j]
                    }),
                forall|j: int| i <= j < n ==> #[trigger] self@.slots[j] == start.slots[j],
        {
            let mut slot = self.slot_copy(i);
            let ghost huts0 = slot.huts@;
            let m: usize = slot.huts.len();
            for j in 0..m
                invariant
                    m == huts0.len(),
                    slot.huts@.len() == m,
                    slot.output == start.slots[i as int].output,
                    slot.position == start.slots[i as int].position,
                    slot.panel_id == start.slots[i as int].panel_id,
                    slot.current == start.slots[i as int].current,
                    slot.preview == start.slots[i as int].preview,
                    huts0 == start.slots[i as int].huts,
                    forall|q: int|
                        0 <= q < j ==> #[trigger] slot.huts@[q] == replaced(
                            huts0,
                            old_id,
                            new_id,
                        )[q],
                    forall|q: int| j <= q < m ==> #[trigger] slot.huts@[q] == huts0[q],
            {
                if slot.huts[j].0 == old_id.0 {
                    slot.huts.set(j, new_id);
                }
            }
            assert(slot.huts@ =~= replaced(huts0, old_id, new_id));
            self.set_slot(i, slot);
        }
        proof {
            assert(self@.slots =~= start.tops_swapped(old_id, new_id).slots);
        }
        let ids = self.all_node_ids();
        let ghost mid = self@;
        assert(ids@.take(0) =~= Seq::empty());
        for i in 0..ids.len()
            invariant
                self@ == mid.children_swapped(ids@.take(i as int), old_id, new_id),
                self.same_frame(*old(self)),
                self@.containers_only(),
        {
            let ghost before = self@;
            self.swap_child_in_place(ids[i], old_id, new_id);
            proof {
                let t = ids@.take(i + 1);
                assert(t.drop_last() =~= ids@.take(i as int));
                assert(t.last() == ids@[i as int]);
                before.lemma_child_swapped_containers(ids@[i as int], old_id, new_id);
            }
        }
        assert(ids@.take(ids@.len() as int) =~= ids@);
    }

    fn remove_child(&mut self, target: NodeId)
        requires
            old(self)@.shaped(),
        ensures
            final(self)@ == old(self)@.child_removed(target),
            final(self).same_frame(*old(self)),
    {
        let ids = self.all_node_ids();
        for i in 0..ids.len()
            invariant
                ids@ == self@.all_ids(),
                self@.shaped(),
                self@ == old(self)@,
                self.same_frame(*old(self)),
                forall|j: int|
                    0 <= j < i ==> !kids_of(self@.kids, #[trigger] ids@[j]).contains(target),
        {
            let parent = ids[i];
            let mut children = self.graph.hut_list_input(parent, "children");
            assert(children@ == kids_of(self@.kids, parent));
            match first_position(&children, target) {
                None => {},
                Some(at) => {
                    proof {
                        lemma_first_parent_split(self@.kids, ids@, target, i as int);
                        assert(ids@.skip(i as int)[0] == parent);
                    }
                    children.remove(at);
                    if children.len() == 1 {
                        let survivor = children[0];
                        self.repoint(parent, survivor);
                        self.drop_node(parent);
                    } else {
                        let len: usize = children.len();
                        self.set_children(parent, children);
                        let ghost mid = self.graph@;
                        assert(self@.nodes[parent] == mid.nodes[parent]@);
                        match self.graph.node_mut(parent) {
                            Some(HutNode::Tab(tab)) => {
                                tab.child_chrome.remove(&target);
                                tab.active = shift_active_index_on_removal(tab.active, at, len);
                            },
                            Some(HutNode::Tile(tile)) => {
                                tile.fracs.remove(&target);
                                tile.active = shift_active_index_on_removal(tile.active, at, len);
                            },
                            _ => {},
                        }
                        proof {
                            let n = self.graph@.nodes[parent];
                            lemma_graph_with_node(mid, parent, n);
                            assert(self.graph@.nodes =~= mid.nodes.insert(parent, n));
                            let was = mid.nodes[parent]@;
                            assert(n@ == node_child_removed(was, target, at as int, len as int));
                        }
                    }
                    return ;
                },
            }
        }
        proof {
            lemma_first_parent_split(self@.kids, ids@, target, ids@.len() as int);
        }
    }

    /// Wraps the focused leaf in place, together with a fresh console, into a
    /// Tab or Tile node. A preview session is committed first; that is all
    /// that happens if the console could not be started.
    pub fn wrap(&mut self, kind: WrapKind, fresh: Result<ConsoleHut, String>) -> (r: Result<
        (),
        String,
    >)
        requires
            old(self)@.shaped(),
            old(self)@.focused < old(self)@.slots.len(),
            old(self)@.committed().out().current < old(self)@.committed().out().huts.len(),
            fresh is Ok ==> old(self)@.next_id + 2 <= u64::MAX,
        ensures
            final(self).same_frame(*old(self)),
            match fresh {
                Ok(hut) => r == Ok::<(), String>(()) && final(self)@ == old(
                    self,
                )@.committed().wrapped(kind, hut@),
                Err(e) => r == Err::<(), String>(e) && final(self)@ == old(self)@.committed(),
            },
            old(self)@.well_formed() ==> final(self)@.well_formed(),
    {
        proof {
            if old(self)@.well_formed() {
                old(self)@.law_commit_keeps_well_formed();
                if fresh is Ok {
                    old(self)@.committed().law_wrap_keeps_well_formed(kind, fresh->Ok_0@);
                }
            }
        }
        proof {
            old(self)@.lemma_committed_shaped();
        }
        self.commit_preview();
        let hut = match fresh {
            Err(e) => return Err(e),
            Ok(hut) => hut,
        };
        let ghost s0 = self@;
        let ghost console = hut@;
        let new_id = self.put_node(HutNode::Console(hut));
        let ghost s1 = self@;
        let top = self.focused_top_level();
        proof {
            self.lemma_paths(top);
        }
        let path = self.graph.focused_path(top);
        let leaf = path[path.len() - 1];
        let node = match kind {
            WrapKind::Tab => {
                let mut tab = TabNode::new();
                tab.active = 1;
                HutNode::Tab(tab)
            },
            WrapKind::Tile(axis) => {
                let mut tile = TileNode::new(axis);
                tile.fracs.insert(new_id, HALF_FRAC);
                tile.fracs.insert(leaf, HALF_FRAC);
                tile.active = 1;
                HutNode::Tile(tile)
            },
        };
        let wrapper = self.put_node(node);
        let mut children: Vec<NodeId> = Vec::new();
        children.push(new_id);
        children.push(leaf);
        assert(children@ =~= seq![new_id, leaf]);
        self.set_children(wrapper, children);
        if path.len() == 1 {
            let i: usize = self.focused_output;
            let mut slot = self.slot_copy(i);
            let current: usize = slot.current;
            slot.huts.set(current, wrapper);
            self.set_slot(i, slot);
        } else {
            let parent = path[path.len() - 2];
            self.swap_child_in_place(parent, leaf, wrapper);
        }
        Ok(())
    }

    /// Wraps the focused leaf into a Tab node. See [`Self::wrap`].
    pub fn wrap_tab(&mut self, fresh: Result<ConsoleHut, String>) -> (r: Result<(), String>)
        requires
            old(self)@.shaped(),
            old(self)@.focused < old(self)@.slots.len(),
            old(self)@.committed().out().current < old(self)@.committed().out().huts.len(),
            fresh is Ok ==> old(self)@.next_id + 2 <= u64::MAX,
        ensures
            final(self).same_frame(*old(self)),
            match fresh {
                Ok(hut) => r == Ok::<(), String>(()) && final(self)@ == old(
                    self,
                )@.committed().wrapped(WrapKind::Tab, hut@),
                Err(e) => r == Err::<(), String>(e) && final(self)@ == old(self)@.committed(),
            },
            old(self)@.well_formed() ==> final(self)@.well_formed(),
    {
        self.wrap(WrapKind::Tab, fresh)
    }

    /// Wraps the focused leaf into a Tile node, split horizontally. See
    /// [`Self::wrap`].
    pub fn wrap_tile(&mut self, fresh: Result<ConsoleHut, String>) -> (r: Result<(), String>)
        requires
            old(self)@.shaped(),
            old(self)@.focused < old(self)@.slots.len(),
            old(self)@.committed().out().current < old(self)@.committed().out().huts.len(),
            fresh is Ok ==> old(self)@.next_id + 2 <= u64::MAX,
        ensures
            final(self).same_frame(*old(self)),
            match fresh {
                Ok(hut) => r == Ok::<(), String>(()) && final(self)@ == old(
                    self,
                )@.committed().wrapped(WrapKind::Tile(Axis::Horizontal), hut@),
                Err(e) => r == Err::<(), String>(e) && final(self)@ == old(self)@.committed(),
            },
            old(self)@.well_formed() ==> final(self)@.well_formed(),
    {
        self.wrap(WrapKind::Tile(Axis::Horizontal), fresh)
    }

    /// Moves the innermost level on the focus path that has two children or
    /// more one step. Returns whether there was one.
    pub fn cycle_innermost(&mut self, dir: Direction) -> (r: bool)
        requires
            old(self)@.shaped(),
            old(self)@.steppable(),
            old(self)@.focused < old(self)@.slots.len(),
            old(self)@.out().current < old(self)@.out().huts.len(),
        ensures
            final(self).same_frame(*old(self)),
            final(self)@ == old(self)@.innermost_cycled(dir),
            ({
                let path = old(self)@.path(old(self)@.out().huts[old(self)@.out().current as int]);
                r == (old(self)@.cycling_level(path, path.len() as int) > 0)
            }),
            old(self)@.well_formed() ==> final(self)@.well_formed(),
    {
        proof {
            if old(self)@.well_formed() {
                old(self)@.law_cycle_keeps_well_formed(dir);
            }
        }
        let top = self.focused_top_level();
        proof {
            self.lemma_paths(top);
        }
        let path = self.graph.focused_path(top);
        let mut n: usize = path.len();
        while n > 0
            invariant
                n <= path@.len(),
                self@ == old(self)@,
                self.same_frame(*old(self)),
                self@.steppable(),
                path@ == self@.path(self@.out().huts[self@.out().current as int]),
                self@.cycling_level(path@, path@.len() as int) == self@.cycling_level(
                    path@,
                    n as int,
                ),
            decreases n,
        {
            let id = path[n - 1];
            let len: usize = self.graph.hut_list_input(id, "children").len();
            assert(len == kids_of(self@.kids, id).len());
            let active: Option<usize> = match self.graph.node(id) {
                Some(HutNode::Tab(tab)) => {
                    assert(self@.nodes[id] == self.graph@.nodes[id]@);
                    Some(tab.active)
                },
                Some(HutNode::Tile(tile)) => {
                    assert(self@.nodes[id] == self.graph@.nodes[id]@);
                    Some(tile.active)
                },
                Some(HutNode::Console(_)) => {
                    assert(self@.nodes[id] == self.graph@.nodes[id]@);
                    None
                },
                None => None,
            };
            match active {
                Some(active) => {
                    if len >= 2 {
                        let next: usize = crate::hut::wrapping_step(len, active, dir);
                        let ghost mid = self.graph@;
                        match self.graph.node_mut(id) {
                            Some(HutNode::Tab(tab)) => {
                                tab.active = next;
                            },
                            Some(HutNode::Tile(tile)) => {
                                tile.active = next;
                            },
                            _ => {},
                        }
                        proof {
                            let m = self.graph@.nodes[id];
                            lemma_graph_with_node(mid, id, m);
                            assert(self.graph@.nodes =~= mid.nodes.insert(id, m));
                        }
                        return true;
                    }
                },
                None => {},
            }
            n = n - 1;
        }
        false
    }

    fn top_level_place(&self, node: NodeId) -> (r: Option<(usize, usize)>)
        ensures
            match r {
                Some((i, at)) => {
                    &&& i == first_slot_with(self@.slots, node)
                    &&& i < self@.slots.len()
                    &&& self@.slots[i as int].huts.contains(node)
                    &&& at == self@.slots[i as int].huts.index_of_first(node)->0
                    &&& at < self@.slots[i as int].huts.len()
                },
                None => first_slot_with(self@.slots, node) == self@.slots.len(),
            },
    {
        for i in 0..self.outputs.len()
            invariant
                forall|j: int| 0 <= j < i ==> !(#[trigger] self@.slots[j]).huts.contains(node),
        {
            assert(self@.slots[i as int] == self.outputs@[i as int]@);
            match first_position(&self.outputs[i].huts, node) {
                Some(at) => {
                    proof {
                        lemma_first_slot_split(self@.slots, node, i as int);
                    }
                    return Some((i, at));
                },
                None => {},
            }
        }
        proof {
            lemma_first_slot_split(self@.slots, node, self@.slots.len() as int);
        }
        None
    }

    /// A console's shell exited: it leaves the stack. A Tab or Tile node left
    /// with one child gives way to that child, and an output left with nothing
    /// gets the fresh console. Returns the output this was about; `None`, and
    /// no change, for a console that is not here.
    pub fn remove_exited(&mut self, id: u64, fresh: Option<Result<ConsoleHut, String>>) -> (r: Result<
        Option<usize>,
        String,
    >)
        requires
            old(self)@.shaped(),
            old(self)@.focused < old(self)@.slots.len(),
            old(self)@.exit_spawns(id) ==> fresh is Some,
            fresh is Some && fresh->0 is Ok ==> old(self)@.next_id < u64::MAX,
        ensures
            final(self).same_frame(*old(self)),
            match first_console(old(self)@.nodes, old(self)@.all_ids(), id) {
                None => r == Ok::<Option<usize>, String>(None) && final(self)@ == old(self)@,
                Some(node) => {
                    let i = old(self)@.exit_output(id, node);
                    if !old(self)@.exit_spawns(id) {
                        &&& r == Ok::<Option<usize>, String>(Some(i as usize))
                        &&& final(self)@ == old(self)@.without_console(node).settled(i)
                    } else {
                        match fresh->0 {
                            Ok(hut) => {
                                &&& r == Ok::<Option<usize>, String>(Some(i as usize))
                                &&& final(self)@ == old(self)@.exited(id, hut@)
                            },
                            Err(e) => {
                                &&& r == Err::<Option<usize>, String>(e)
                                &&& final(self)@ == old(self)@.without_console(node)
                            },
                        }
                    }
                },
            },
            old(self)@.well_formed() && r is Ok ==> final(self)@.well_formed(),
    {
        proof {
            if old(self)@.well_formed() && (!old(self)@.exit_spawns(id) || fresh->0 is Ok) {
                let hut = if old(self)@.exit_spawns(id) {
                    fresh->0->Ok_0@
                } else {
                    arbitrary()
                };
                old(self)@.law_exit_keeps_well_formed(id, hut);
            }
        }
        let ids = self.all_node_ids();
        let node = match self.console_among(&ids, id) {
            None => return Ok(None),
            Some(node) => node,
        };
        let owning = self.output_index_for_hut(id);
        let count: usize = self.outputs.len();
        proof {
            assert(count == old(self)@.slots.len());
            old(self)@.lemma_output_of_bounds(id, 0);
            assert(owning is Some ==> owning->0 == old(self)@.output_of(id, 0));
        }
        let touched: usize = match self.top_level_place(node) {
            Some((i, at)) => {
                let mut slot = self.slot_copy(i);
                self.drop_node(node);
                slot.huts.remove(at);
                let len: usize = slot.huts.len();
                slot.current = shift_active_index_on_removal(slot.current, at, len);
                slot.preview = match slot.preview {
                    Some(p) => Some(shift_active_index_on_removal(p, at, len)),
                    None => None,
                };
                self.set_slot(i, slot);
                i
            },
            None => {
                self.remove_child(node);
                self.drop_node(node);
                proof {
                    old(self)@.lemma_without_console_keeps(node);
                    old(self)@.lemma_output_of_bounds(id, 0);
                    assert(self@ == old(self)@.without_console(node));
                    assert(self@.focused == old(self)@.focused);
                    assert(owning is None ==> self.focused_output == old(self)@.exit_output(id, node));
                    assert(owning is Some ==> owning->0 == old(self)@.exit_output(id, node));
                }
                match owning {
                    Some(i) => i,
                    None => self.focused_output,
                }
            },
        };
        proof {
            old(self)@.lemma_without_console_keeps(node);
            old(self)@.lemma_output_of_bounds(id, 0);
            assert(self@ == old(self)@.without_console(node));
            assert(touched == old(self)@.exit_output(id, node));
        }
        if self.slot(touched).is_empty() {
            match fresh {
                Some(Ok(hut)) => {
                    self.put_console(touched, hut);
                },
                Some(Err(e)) => return Err(e),
                None => {},
            }
        }
        let mut slot = self.slot_copy(touched);
        let last: usize = slot.huts.len().saturating_sub(1);
        if slot.current > last {
            slot.current = last;
        }
        slot.preview = match slot.preview {
            Some(p) => Some(
                if p > last {
                    last
                } else {
                    p
                },
            ),
            None => None,
        };
        self.set_slot(touched, slot);
        Ok(Some(touched))
    }

    /// Whether [`Self::remove_exited`] needs a fresh console: the console is
    /// an output's only top-level entry.
    pub fn remove_exited_spawns(&self, id: u64) -> (r: bool)
        requires
            self@.shaped(),
            self@.seated(),
        ensures
            r == self@.exit_spawns(id),
    {
        let ids = self.all_node_ids();
        match self.console_among(&ids, id) {
            None => false,
            Some(node) => {
                match self.top_level_place(node) {
                    Some((i, _)) => self.slot(i).len() == 1,
                    None => {
                        proof {
                            self@.lemma_nested_exit_keeps_lengths(id, node);
                        }
                        false
                    },
                }
            },
        }
    }
}

impl StackView {
    pub proof fn lemma_committed_shaped(self)
        requires
            self.shaped(),
            self.focused < self.slots.len(),
        ensures
            self.committed().shaped(),
            self.committed().focused == self.focused,
            self.committed().slots.len() == self.slots.len(),
            self.committed().next_id == self.next_id,
    {
        assert(self.committed().kids == self.kids);
    }

    pub proof fn lemma_child_swapped_containers(self, p: NodeId, old_id: NodeId, new_id: NodeId)
        requires
            self.containers_only(),
        ensures
            self.child_swapped(p, old_id, new_id).containers_only(),
    {
    }

    pub proof fn lemma_children_swapped_keeps(
        self,
        parents: Seq<NodeId>,
        old_id: NodeId,
        new_id: NodeId,
    )
        ensures
            self.children_swapped(parents, old_id, new_id).slots == self.slots,
            self.children_swapped(parents, old_id, new_id).focused == self.focused,
            self.children_swapped(parents, old_id, new_id).next_id == self.next_id,
        decreases parents.len(),
    {
        if parents.len() > 0 {
            self.lemma_children_swapped_keeps(parents.drop_last(), old_id, new_id);
        }
    }

    pub proof fn lemma_without_console_keeps(self, id: NodeId)
        ensures
            self.without_console(id).slots.len() == self.slots.len(),
            self.without_console(id).focused == self.focused,
            self.without_console(id).next_id == self.next_id,
            first_slot_with(self.slots, id) >= self.slots.len() ==> forall|i: int|
                0 <= i < self.slots.len() ==> (#[trigger] self.without_console(
                    id,
                ).slots[i]).huts.len() == self.slots[i].huts.len(),
    {
        lemma_first_slot_bounds(self.slots, id);
        match first_parent(self.kids, self.all_ids(), id) {
            None => {},
            Some(parent) => {
                let list = self.kids[parent];
                let rest = list.remove(list.index_of_first(id)->0);
                if rest.len() == 1 {
                    let s = self.tops_swapped(parent, rest[0]);
                    s.lemma_children_swapped_keeps(s.all_ids(), parent, rest[0]);
                }
            },
        }
    }

    pub proof fn lemma_output_of_bounds(self, hut: u64, i: int)
        requires
            0 <= i <= self.slots.len(),
        ensures
            i <= self.output_of(hut, i) <= self.slots.len(),
        decreases self.slots.len() - i,
    {
        if i < self.slots.len() && !(first_console(self.nodes, self.ids_on(i), hut) is Some) {
            self.lemma_output_of_bounds(hut, i + 1);
        }
    }

    pub proof fn lemma_nested_exit_keeps_lengths(self, hut: u64, id: NodeId)
        requires
            self.seated(),
            first_slot_with(self.slots, id) >= self.slots.len(),
        ensures
            self.without_console(id).slots[self.exit_output(hut, id)].huts.len() > 0,
    {
        self.lemma_without_console_keeps(id);
        self.lemma_output_of_bounds(hut, 0);
        let i = self.exit_output(hut, id);
        assert(0 <= i < self.slots.len());
        assert(self.without_console(id).slots[i].huts.len() == self.slots[i].huts.len());
    }

    pub proof fn lemma_without_nodes(self, ids: Seq<NodeId>)
        ensures
            acyclic(self.kids) ==> acyclic(self.without_nodes(ids).kids),
            self.without_nodes(ids).slots == self.slots,
            self.without_nodes(ids).focused == self.focused,
            self.without_nodes(ids).next_id == self.next_id,
        decreases ids.len(),
    {
        if ids.len() > 0 {
            self.lemma_without_nodes(ids.drop_last());
            if acyclic(self.kids) {
                crate::tree::lemma_kids_without_acyclic(
                    self.without_nodes(ids.drop_last()).kids,
                    ids.last(),
                );
            }
        }
    }

    pub proof fn lemma_without_subtrees_keeps(self, tops: Seq<NodeId>)
        ensures
            acyclic(self.kids) ==> acyclic(self.without_subtrees(tops).kids),
            self.without_subtrees(tops).slots == self.slots,
            self.without_subtrees(tops).focused == self.focused,
            self.without_subtrees(tops).next_id == self.next_id,
        decreases tops.len(),
    {
        if tops.len() > 0 {
            self.lemma_without_subtrees_keeps(tops.drop_last());
            let before = self.without_subtrees(tops.drop_last());
            before.lemma_without_nodes(subtree(before.kids, tops.last()));
        }
    }
}

} // verus!
