//! The kinds of node a stack of Huts is made of: consoles at the leaves, Tab
//! nodes that show one child at a time, and Tile nodes that show every child
//! side by side.
use vstd::prelude::*;

use crate::assoc::AssocMap;
use crate::console_hut::{ConsoleHut, HutView};
use crate::graph::{Graph, InputPort, Node, NodeId, OutputPort, PortKind};
use crate::hut::{stepped, wrapping_step, Axis, Direction};

verus! {

/// The share of a pane that was never given one, as the bits of the binary64
/// number 1.0.
pub const DEFAULT_FRAC: u64 = 0x3ff0000000000000;

/// The share of each half of a freshly split pane, as the bits of the
/// binary64 number 0.5.
pub const HALF_FRAC: u64 = 0x3fe0000000000000;

/// Shows exactly one child at a time.
pub struct TabNode {
    pub active: usize,
    /// The handle of each child's cached tab label, where it has one.
    pub child_chrome: AssocMap<NodeId, u64>,
}

/// Shows every child at once, side by side along `axis`.
pub struct TileNode {
    pub axis: Axis,
    pub active: usize,
    /// Each pane's share of the area, as the bits of a binary64 number, where
    /// it was given one.
    pub fracs: AssocMap<NodeId, u64>,
}

/// A node of a stack of Huts.
pub enum HutNode {
    Console(ConsoleHut),
    Tab(TabNode),
    Tile(TileNode),
}

/// What a node stands for.
#[verifier::ext_equal]
pub enum NodeView {
    Console(HutView),
    Tab { active: usize, chrome: Map<NodeId, u64> },
    Tile { axis: Axis, active: usize, fracs: Map<NodeId, u64> },
}

impl View for HutNode {
    type V = NodeView;

    open spec fn view(&self) -> NodeView {
        match self {
            HutNode::Console(hut) => NodeView::Console(hut@),
            HutNode::Tab(tab) => NodeView::Tab { active: tab.active, chrome: tab.child_chrome@ },
            HutNode::Tile(tile) => NodeView::Tile {
                axis: tile.axis,
                active: tile.active,
                fracs: tile.fracs@,
            },
        }
    }
}

/// The entry at `i`, if there is one.
pub open spec fn entry_at(s: Seq<NodeId>, i: int) -> Option<NodeId> {
    if 0 <= i < s.len() {
        Some(s[i])
    } else {
        None
    }
}

/// The children of `id` among every `HutList` reference of a graph.
pub open spec fn children_in(
    lists: Map<(NodeId, Seq<char>), Seq<NodeId>>,
    id: NodeId,
) -> Seq<NodeId> {
    if lists.contains_key((id, "children"@)) {
        lists[(id, "children"@)]
    } else {
        Seq::empty()
    }
}

fn entry_of(s: &Vec<NodeId>, i: usize) -> (r: Option<NodeId>)
    ensures
        r == entry_at(s@, i as int),
{
    if i < s.len() {
        Some(s[i])
    } else {
        None
    }
}

/// A step of the active index among `len` children; nothing moves with fewer
/// than two.
pub open spec fn cycled(len: int, active: usize, dir: Direction) -> usize {
    if len < 2 {
        active
    } else {
        stepped(len, active as int, dir) as usize
    }
}

fn children_port() -> (r: Vec<InputPort>)
    ensures
        r@ == seq![InputPort { name: "children", kind: PortKind::HutList }],
{
    let mut ports: Vec<InputPort> = Vec::new();
    ports.push(InputPort { name: "children", kind: PortKind::HutList });
    assert(ports@ =~= seq![InputPort { name: "children", kind: PortKind::HutList }]);
    ports
}

fn content_port() -> (r: Vec<OutputPort>)
    ensures
        r@ == seq![OutputPort { name: "content", kind: PortKind::Content }],
{
    let mut ports: Vec<OutputPort> = Vec::new();
    ports.push(OutputPort { name: "content", kind: PortKind::Content });
    assert(ports@ =~= seq![OutputPort { name: "content", kind: PortKind::Content }]);
    ports
}

impl TabNode {
    pub fn new() -> (r: Self)
        ensures
            r.active == 0,
            r.child_chrome@ == Map::<NodeId, u64>::empty(),
    {
        TabNode { active: 0, child_chrome: AssocMap::new() }
    }

    /// Moves the active index one step around the children. Returns whether
    /// there was anything to cycle.
    pub fn cycle<N, V, Env>(
        &mut self,
        graph: &Graph<N, V, Env>,
        self_id: NodeId,
        dir: Direction,
    ) -> (r: bool)
        requires
            old(self).active + graph@.hut_list(self_id, "children"@).len() <= usize::MAX,
        ensures
            r == (graph@.hut_list(self_id, "children"@).len() >= 2),
            final(self).active == cycled(
                graph@.hut_list(self_id, "children"@).len() as int,
                old(self).active,
                dir,
            ),
            final(self).child_chrome == old(self).child_chrome,
    {
        let len: usize = graph.hut_list_input(self_id, "children").len();
        if len < 2 {
            return false;
        }
        self.active = wrapping_step(len, self.active, dir);
        true
    }

    /// The children whose content this node's own content is made of: the
    /// active one alone.
    pub fn shown<N, V, Env>(&self, graph: &Graph<N, V, Env>, self_id: NodeId) -> (r: Vec<NodeId>)
        ensures
            r@ == (match entry_at(graph@.hut_list(self_id, "children"@), self.active as int) {
                Some(child) => seq![child],
                None => Seq::<NodeId>::empty(),
            }),
    {
        let children = graph.hut_list_input(self_id, "children");
        let mut out: Vec<NodeId> = Vec::new();
        if self.active < children.len() {
            out.push(children[self.active]);
        }
        assert(out@ =~= (match entry_at(
            graph@.hut_list(self_id, "children"@),
            self.active as int,
        ) {
            Some(child) => seq![child],
            None => Seq::<NodeId>::empty(),
        }));
        out
    }
}

impl Default for TabNode {
    fn default() -> (r: Self)
        ensures
            r.active == 0,
            r.child_chrome@ == Map::<NodeId, u64>::empty(),
    {
        TabNode::new()
    }
}

impl TileNode {
    pub fn new(axis: Axis) -> (r: Self)
        ensures
            r.axis == axis,
            r.active == 0,
            r.fracs@ == Map::<NodeId, u64>::empty(),
    {
        TileNode { axis, active: 0, fracs: AssocMap::new() }
    }

    /// Moves the focused pane one step around the children. Returns whether
    /// there was anything to cycle.
    pub fn cycle<N, V, Env>(
        &mut self,
        graph: &Graph<N, V, Env>,
        self_id: NodeId,
        dir: Direction,
    ) -> (r: bool)
        requires
            old(self).active + graph@.hut_list(self_id, "children"@).len() <= usize::MAX,
        ensures
            r == (graph@.hut_list(self_id, "children"@).len() >= 2),
            final(self).active == cycled(
                graph@.hut_list(self_id, "children"@).len() as int,
                old(self).active,
                dir,
            ),
            final(self).axis == old(self).axis,
            final(self).fracs == old(self).fracs,
    {
        let len: usize = graph.hut_list_input(self_id, "children").len();
        if len < 2 {
            return false;
        }
        self.active = wrapping_step(len, self.active, dir);
        true
    }

    /// The children whose content this node's own content is made of: every
    /// one of them.
    pub fn shown<N, V, Env>(&self, graph: &Graph<N, V, Env>, self_id: NodeId) -> (r: Vec<NodeId>)
        ensures
            r@ == graph@.hut_list(self_id, "children"@),
    {
        graph.hut_list_input(self_id, "children")
    }
}

/// The share of pane `id`.
pub open spec fn frac_of(fracs: Map<NodeId, u64>, id: NodeId) -> u64 {
    if fracs.contains_key(id) {
        fracs[id]
    } else {
        DEFAULT_FRAC
    }
}

/// The share of each pane, in the order of `children`.
pub fn fracs_for(children: &Vec<NodeId>, fracs: &AssocMap<NodeId, u64>) -> (r: Vec<u64>)
    ensures
        r@.len() == children@.len(),
        forall|i: int|
            0 <= i < children@.len() ==> #[trigger] r@[i] == frac_of(fracs@, children@[i]),
{
    let mut out: Vec<u64> = Vec::new();
    for i in 0..children.len()
        invariant
            out@.len() == i,
            forall|j: int| 0 <= j < i ==> #[trigger] out@[j] == frac_of(fracs@, children@[j]),
    {
        let f: u64 = match fracs.get(&children[i]) {
            Some(f) => *f,
            None => DEFAULT_FRAC,
        };
        out.push(f);
    }
    out
}

impl Node for HutNode {
    open spec fn in_ports(&self) -> Seq<InputPort> {
        match self {
            HutNode::Console(_) => Seq::empty(),
            _ => seq![InputPort { name: "children", kind: PortKind::HutList }],
        }
    }

    open spec fn out_ports(&self) -> Seq<OutputPort> {
        seq![OutputPort { name: "content", kind: PortKind::Content }]
    }

    open spec fn focus_in(
        &self,
        lists: Map<(NodeId, Seq<char>), Seq<NodeId>>,
        self_id: NodeId,
    ) -> Option<NodeId> {
        match self {
            HutNode::Console(_) => None,
            HutNode::Tab(tab) => entry_at(children_in(lists, self_id), tab.active as int),
            HutNode::Tile(tile) => entry_at(children_in(lists, self_id), tile.active as int),
        }
    }

    open spec fn is_touched(&self) -> bool {
        match self {
            HutNode::Console(hut) => hut@.touched,
            _ => true,
        }
    }

    open spec fn as_touched(&self) -> Self {
        match self {
            HutNode::Console(hut) => HutNode::Console(hut.as_touched()),
            _ => *self,
        }
    }

    fn inputs(&self) -> (r: Vec<InputPort>) {
        match self {
            HutNode::Console(_) => Vec::new(),
            _ => children_port(),
        }
    }

    fn outputs(&self) -> (r: Vec<OutputPort>) {
        content_port()
    }

    fn focused_child<V, Env>(&self, graph: &Graph<Self, V, Env>, self_id: NodeId) -> (r: Option<
        NodeId,
    >) {
        match self {
            HutNode::Console(_) => None,
            HutNode::Tab(tab) => entry_of(
                &graph.hut_list_input(self_id, "children"),
                tab.active,
            ),
            HutNode::Tile(tile) => entry_of(
                &graph.hut_list_input(self_id, "children"),
                tile.active,
            ),
        }
    }

    fn touched(&self) -> (r: bool) {
        match self {
            HutNode::Console(hut) => hut.touched(),
            _ => true,
        }
    }

    fn mark_touched(&mut self) {
        match self {
            HutNode::Console(hut) => hut.mark_touched(),
            _ => {},
        }
    }
}

/// Whether `top` really splits its area between two panes or more.
pub fn is_effectively_tiled<V, Env>(graph: &Graph<HutNode, V, Env>, top: NodeId) -> (r: bool)
    ensures
        r == (graph@.nodes.contains_key(top) && graph@.nodes[top] is Tile && graph@.hut_list(
            top,
            "children"@,
        ).len() >= 2),
{
    match graph.node(top) {
        Some(HutNode::Tile(_)) => graph.hut_list_input(top, "children").len() >= 2,
        _ => false,
    }
}

/// A console takes no references; a Tab and a Tile node take a list of children.
/// All of them give content.
pub proof fn law_ports_of_a_node(n: HutNode)
    ensures
        n is Console ==> n.in_ports().len() == 0,
        !(n is Console) ==> n.in_ports().len() == 1 && n.in_ports()[0].kind == PortKind::HutList
            && n.in_ports()[0].name@ == seq!['c', 'h', 'i', 'l', 'd', 'r', 'e', 'n'],
        n.out_ports().len() == 1,
        n.out_ports()[0].kind == PortKind::Content,
        n.out_ports()[0].name@ == seq!['c', 'o', 'n', 't', 'e', 'n', 't'],
{
    reveal_strlit("children");
    reveal_strlit("content");
    assert("children"@ =~= seq!['c', 'h', 'i', 'l', 'd', 'r', 'e', 'n']);
    assert("content"@ =~= seq!['c', 'o', 'n', 't', 'e', 'n', 't']);
}

/// A Tab and a Tile node hand focus to their active child, if they have one;
/// a console keeps it. Only a console can be unused.
pub proof fn law_focus_and_use_of_a_node(
    n: HutNode,
    lists: Map<(NodeId, Seq<char>), Seq<NodeId>>,
    id: NodeId,
    i: int,
)
    ensures
        n is Console ==> n.focus_in(lists, id) is None,
        ({
            let port = seq!['c', 'h', 'i', 'l', 'd', 'r', 'e', 'n'];
            let active = match n {
                HutNode::Tab(tab) => tab.active as int,
                HutNode::Tile(tile) => tile.active as int,
                HutNode::Console(_) => -1,
            };
            let listed = lists.contains_key((id, port)) && 0 <= active < lists[(id, port)].len();
            &&& listed ==> n.focus_in(lists, id) == Some(lists[(id, port)][active])
            &&& !listed ==> n.focus_in(lists, id) is None
        }),
        !(n is Console) ==> n.is_touched() && n.as_touched() == n,
{
    reveal_strlit("children");
    assert("children"@ =~= seq!['c', 'h', 'i', 'l', 'd', 'r', 'e', 'n']);
}

} // verus!
