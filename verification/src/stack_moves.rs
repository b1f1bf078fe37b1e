//! What going through the Huts of an output does to them: which entry a step
//! or a preview leads to, what is discarded on the way, what a commit brings
//! to the front, and which level of tabs and tiles a cycling step turns.
use vstd::prelude::*;

use crate::console_hut::HutView;
use crate::graph::NodeId;
use crate::graph_nodes::{frac_of, NodeView};
use crate::hut::Direction;
use crate::stack_laws::{is_kid, is_top};
use crate::stack_model::{SlotView, StackView, WrapKind};
use crate::tree::kids_of;

verus! {

/// A step around a ring leads to the neighbour, and from either end to the
/// other end.
pub proof fn law_step_leads_to_the_neighbour(len: int, active: int)
    requires
        0 <= active < len,
    ensures
        active + 1 < len ==> crate::hut::stepped(len, active, Direction::Next) == active + 1,
        active + 1 == len ==> crate::hut::stepped(len, active, Direction::Next) == 0,
        active > 0 ==> crate::hut::stepped(len, active, Direction::Prev) == active - 1,
        active == 0 ==> crate::hut::stepped(len, active, Direction::Prev) == len - 1,
{
    assert((active + 1) % len == if active + 1 == len { 0 } else { active + 1 }) by (nonlinear_arith)
        requires
            0 <= active < len,
    ;
    assert((active - 1) % len == if active == 0 { len - 1 } else { active - 1 }) by (nonlinear_arith)
        requires
            0 <= active < len,
    ;
}

impl StackView {
    /// Whether an entry is a console that was never used.
    pub open spec fn is_unused(self, id: NodeId) -> bool {
        self.nodes.contains_key(id) && self.nodes[id] is Console && !(
        self.nodes[id]->Console_0).touched
    }

    /// Committing a preview takes the previewed entry out of the list and puts
    /// it in front. All others keep their order. Nothing else about the output
    /// changes, but that the first entry is the current one and the preview is
    /// over.
    pub proof fn law_commit_keeps_the_others_in_order(self)
        requires
            self.focused < self.slots.len(),
            self.out().preview is Some,
            self.out().preview->0 < self.out().huts.len(),
        ensures
            ({
                let pos = self.out().preview->0 as int;
                let was = self.out();
                let now = self.committed().out();
                &&& now.huts.len() == was.huts.len()
                &&& now.huts[0] == was.huts[pos]
                &&& forall|i: int| 0 <= i < pos ==> now.huts[i + 1] == #[trigger] was.huts[i]
                &&& forall|i: int| pos < i < was.huts.len() ==> now.huts[i] == #[trigger] was.huts[i]
                &&& now.huts.drop_first() == was.huts.remove(pos)
                &&& now.current == 0
                &&& now.preview is None
                &&& now.output == was.output
                &&& now.position == was.position
                &&& now.panel_id == was.panel_id
                &&& self.committed().focused == self.focused
                &&& self.committed().slots.len() == self.slots.len()
                &&& forall|i: int|
                    0 <= i < self.slots.len() && i != self.focused ==> (
                    #[trigger] self.committed().slots[i]) == self.slots[i]
            }),
    {
        let pos = self.out().preview->0 as int;
        let was = self.out();
        let now = self.committed().out();
        assert(now.huts.drop_first() =~= was.huts.remove(pos));
        assert forall|i: int| 0 <= i < pos implies now.huts[i + 1] == #[trigger] was.huts[i] by {
            assert(now.huts[i + 1] == was.huts.remove(pos)[i]);
        }
        assert forall|i: int| pos < i < was.huts.len() implies now.huts[i]
            == #[trigger] was.huts[i] by {
            assert(now.huts[i] == was.huts.remove(pos)[i - 1]);
        }
    }

    /// Committing a preview marks the previewed entry used, where it is a
    /// console, and changes no other node and nothing about who belongs to
    /// whom.
    pub proof fn law_commit_marks_just_the_previewed(self, x: NodeId)
        requires
            self.focused < self.slots.len(),
            self.out().preview is Some,
            self.out().preview->0 < self.out().huts.len(),
        ensures
            ({
                let id = self.out().huts[self.out().preview->0 as int];
                let t = self.committed();
                &&& t.kids == self.kids
                &&& t.next_id == self.next_id
                &&& t.nodes.contains_key(x) <==> self.nodes.contains_key(x)
                &&& self.nodes.contains_key(x) && x != id ==> t.nodes[x] == self.nodes[x]
                &&& self.nodes.contains_key(id) ==> match self.nodes[id] {
                    NodeView::Console(hut) => {
                        let now = t.nodes[id]->Console_0;
                        &&& t.nodes[id] is Console
                        &&& now.touched
                        &&& now.id == hut.id
                        &&& now.pixel_size == hut.pixel_size
                        &&& now.windows == hut.windows
                        &&& now.active == hut.active
                        &&& now.showing_terminal == hut.showing_terminal
                        &&& now.space == hut.space
                    },
                    _ => t.nodes[id] == self.nodes[id],
                }
            }),
    {
    }

    /// Without a preview there is nothing to commit.
    pub proof fn law_commit_needs_a_preview(self)
        requires
            self.out().preview is None,
        ensures
            self.committed() == self,
    {
    }

    /// Two quick switches lead back: after a commit, the next entry to preview
    /// is the one that was in front before, and committing that one too puts
    /// the two in front in the order in which they were used last.
    pub proof fn law_two_switches_lead_back(self)
        requires
            self.focused < self.slots.len(),
            self.out().preview is Some,
            0 < self.out().preview->0 < self.out().huts.len(),
        ensures
            ({
                let was = self.out().huts;
                let once = self.committed();
                let (s, p) = once.left_forward(
                    once.out().preview_index() as int,
                    Some(once.out().current),
                );
                let open = s.previewing(p);
                let twice = open.committed();
                &&& open.out().huts == once.out().huts
                &&& open.out().huts[open.out().preview->0 as int] == was[0]
                &&& twice.out().huts[0] == was[0]
                &&& twice.out().huts[1] == was[self.out().preview->0 as int]
                &&& twice.out().current == 0
            }),
    {
        self.law_commit_keeps_the_others_in_order();
        let once = self.committed();
        let (s, p) = once.left_forward(0, Some(0usize));
        let open = s.previewing(p);
        assert(open.out().huts == once.out().huts);
        assert(p == 1);
        assert(once.out().huts[0int + 1] == self.out().huts[0]);
        open.law_commit_keeps_the_others_in_order();
        assert(open.committed().out().huts[0int + 1] == open.out().huts[0]);
    }

    /// Leaving an entry forwards leads to the entry behind it, or off the end
    /// from the last one. The entry left is discarded exactly if it is a
    /// console that was never used and is not protected; the others stay, in
    /// order, and the current entry stays the current one unless it is the one
    /// discarded.
    pub proof fn law_step_forward(self, pos: int, protect: Option<usize>)
        requires
            self.focused < self.slots.len(),
            0 <= pos < self.out().huts.len(),
            self.out().huts.len() <= usize::MAX,
        ensures
            ({
                let was = self.out();
                let dropped = self.is_unused(was.huts[pos]) && protect != Some(pos as usize);
                let (s, p) = self.left_forward(pos, protect);
                let now = s.out();
                &&& now.huts == if dropped {
                    was.huts.remove(pos)
                } else {
                    was.huts
                }
                &&& self.forward_spawns(pos, protect) <==> pos + 1 == was.huts.len()
                &&& pos + 1 < was.huts.len() ==> 0 <= p < now.huts.len() && now.huts[p]
                    == was.huts[pos + 1]
                &&& pos + 1 == was.huts.len() ==> p == now.huts.len()
                &&& was.current < was.huts.len() && !(dropped && was.current == pos) ==> now.current
                    < now.huts.len() && now.huts[now.current as int] == was.huts[was.current as int]
                &&& now.preview == was.preview
                &&& s.focused == self.focused
                &&& s.slots.len() == self.slots.len()
            }),
    {
    }

    /// Leaving an entry backwards leads to the entry before it; there is none
    /// before the first. What is discarded is as in a step forwards, but that
    /// the first entry is not left.
    pub proof fn law_step_backward(self, pos: int, protect: Option<usize>)
        requires
            self.focused < self.slots.len(),
            0 <= pos < self.out().huts.len(),
            self.out().huts.len() <= usize::MAX,
        ensures
            ({
                let was = self.out();
                let dropped = pos > 0 && self.is_unused(was.huts[pos]) && protect != Some(
                    pos as usize,
                );
                let (s, p) = self.backward(pos, protect);
                let now = s.out();
                &&& now.huts == if dropped {
                    was.huts.remove(pos)
                } else {
                    was.huts
                }
                &&& 0 <= p < now.huts.len()
                &&& pos > 0 ==> now.huts[p] == was.huts[pos - 1]
                &&& pos == 0 ==> s == self && p == 0
                &&& was.current < was.huts.len() && !(dropped && was.current == pos) ==> now.current
                    < now.huts.len() && now.huts[now.current as int] == was.huts[was.current as int]
                &&& now.preview == was.preview
                &&& s.focused == self.focused
                &&& s.slots.len() == self.slots.len()
            }),
    {
    }

    /// A step changes no node but the one it discards, which is gone.
    pub proof fn law_step_drops_just_one_node(self, pos: int, protect: Option<usize>, x: NodeId)
        requires
            self.focused < self.slots.len(),
            0 <= pos < self.out().huts.len(),
            self.out().huts.len() <= usize::MAX,
        ensures
            ({
                let id = self.out().huts[pos];
                let dropped = self.is_unused(id) && protect != Some(pos as usize);
                let s = self.left_forward(pos, protect).0;
                &&& s.nodes.contains_key(x) <==> self.nodes.contains_key(x) && !(dropped && x == id)
                &&& s.nodes.contains_key(x) ==> s.nodes[x] == self.nodes[x]
                &&& s.next_id == self.next_id
            }),
            ({
                let id = self.out().huts[pos];
                let dropped = pos > 0 && self.is_unused(id) && protect != Some(pos as usize);
                let s = self.backward(pos, protect).0;
                &&& s.nodes.contains_key(x) <==> self.nodes.contains_key(x) && !(dropped && x == id)
                &&& s.nodes.contains_key(x) ==> s.nodes[x] == self.nodes[x]
                &&& s.next_id == self.next_id
            }),
    {
    }

    /// Moving the current index or the preview of the focused output changes
    /// nothing else.
    pub proof fn law_only_the_index_moves(self, pos: usize)
        requires
            self.focused < self.slots.len(),
        ensures
            ({
                let at = self.at(pos as int);
                let seen = self.previewing(pos as int);
                let o = self.out();
                &&& at.out() == (SlotView {
                    output: o.output,
                    position: o.position,
                    panel_id: o.panel_id,
                    huts: o.huts,
                    current: pos,
                    preview: o.preview,
                })
                &&& seen.out() == (SlotView {
                    output: o.output,
                    position: o.position,
                    panel_id: o.panel_id,
                    huts: o.huts,
                    current: o.current,
                    preview: Some(pos),
                })
                &&& at.slots.len() == self.slots.len() && seen.slots.len() == self.slots.len()
                &&& at.nodes == self.nodes && seen.nodes == self.nodes
                &&& at.kids == self.kids && seen.kids == self.kids
                &&& at.next_id == self.next_id && seen.next_id == self.next_id
                &&& at.focused == self.focused && seen.focused == self.focused
                &&& forall|i: int|
                    0 <= i < self.slots.len() && i != self.focused ==> #[trigger] self.slots[i]
                        == at.slots[i] && self.slots[i] == seen.slots[i]
            }),
    {
    }

    /// A fresh console comes last on its output, under a number that no node
    /// had, and no index and no other entry or node changes.
    pub proof fn law_spawned_console_comes_last(self, i: int, hut: HutView)
        requires
            0 <= i < self.slots.len(),
            self.numbered(),
            self.next_id < u64::MAX,
        ensures
            ({
                let t = self.spawned(i, hut);
                let was = self.slots[i];
                let now = t.slots[i];
                &&& now.huts.len() == was.huts.len() + 1
                &&& forall|j: int| 0 <= j < was.huts.len() ==> now.huts[j] == #[trigger] was.huts[j]
                &&& !self.nodes.contains_key(now.huts.last())
                &&& t.nodes.contains_key(now.huts.last())
                &&& t.nodes[now.huts.last()] == NodeView::Console(hut)
                &&& forall|x: NodeId| #[trigger]
                    self.nodes.contains_key(x) ==> t.nodes.contains_key(x) && t.nodes[x]
                        == self.nodes[x]
                &&& now.current == was.current && now.preview == was.preview
                &&& now.output == was.output && now.position == was.position && now.panel_id
                    == was.panel_id
                &&& t.kids == self.kids && t.focused == self.focused && t.slots.len()
                    == self.slots.len()
                &&& t.next_id == self.next_id + 1
                &&& forall|a: int|
                    0 <= a < self.slots.len() && a != i ==> #[trigger] self.slots[a] == t.slots[a]
            }),
    {
    }

    /// A preview stands on its own entry, and one that is not open on the
    /// current one.
    pub proof fn law_preview_stands_on_its_entry(self)
        ensures
            self.out().preview is Some ==> self.out().preview_index() == self.out().preview->0,
            self.out().preview is None ==> self.out().preview_index() == self.out().current,
    {
    }

    /// Focus goes from a Tab or Tile node to its active child, and no further
    /// than a console.
    pub proof fn law_focus_goes_to_the_active_child(self, id: NodeId)
        requires
            self.nodes.contains_key(id),
        ensures
            match self.nodes[id] {
                NodeView::Console(_) => self.focus_step(id) is None,
                NodeView::Tab { active, .. } => active < kids_of(self.kids, id).len()
                    ==> self.focus_step(id) == Some(kids_of(self.kids, id)[active as int]),
                NodeView::Tile { active, .. } => active < kids_of(self.kids, id).len()
                    ==> self.focus_step(id) == Some(kids_of(self.kids, id)[active as int]),
            },
    {
    }

    /// The number of the active child of a Tab or Tile node.
    pub open spec fn active_of(self, id: NodeId) -> int {
        match self.nodes[id] {
            NodeView::Console(_) => 0,
            NodeView::Tab { active, .. } => active as int,
            NodeView::Tile { active, .. } => active as int,
        }
    }

    /// Cycling turns the innermost level on the focus path, the last node
    /// before the leaf, to the neighbour of its active child: whatever node
    /// changes is on the path, has two children or more, and every node after
    /// it on the path has fewer. A path of just a console has nothing to turn.
    pub proof fn law_cycling_turns_the_innermost_level(self, dir: Direction)
        requires
            self.well_formed(),
            self.steppable(),
        ensures
            ({
                let path = self.path(self.out().huts[self.out().current as int]);
                let t = self.innermost_cycled(dir);
                &&& t.kids == self.kids && t.slots == self.slots && t.focused == self.focused
                &&& t.next_id == self.next_id
                &&& t.nodes.dom() == self.nodes.dom()
                &&& path.len() == 1 ==> t == self
                &&& self.cycling_level(path, path.len() as int) > 0 <==> path.len() > 1
                &&& forall|x: NodeId| #[trigger]
                    self.nodes.contains_key(x) && t.nodes[x] != self.nodes[x] ==> exists|j: int|
                        0 <= j < path.len() && #[trigger] path[j] == x && kids_of(
                            self.kids,
                            x,
                        ).len() >= 2 && forall|k: int|
                            j < k < path.len() ==> kids_of(self.kids, #[trigger] path[k]).len() < 2
                &&& path.len() > 1 ==> {
                    let x = path[path.len() - 2];
                    let n = kids_of(self.kids, x).len();
                    let was = self.active_of(x);
                    let now = t.active_of(x);
                    &&& n >= 2
                    &&& match dir {
                        Direction::Next => now == if was + 1 == n {
                            0
                        } else {
                            was + 1
                        },
                        Direction::Prev => now == if was == 0 {
                            n - 1
                        } else {
                            was - 1
                        },
                    }
                    &&& match (self.nodes[x], t.nodes[x]) {
                        (NodeView::Tab { chrome: a, .. }, NodeView::Tab { chrome: b, .. }) => a == b,
                        (
                            NodeView::Tile { axis: a, fracs: f, .. },
                            NodeView::Tile { axis: b, fracs: g, .. },
                        ) => a == b && f == g,
                        _ => false,
                    }
                }
            }),
    {
        let top = self.out().huts[self.out().current as int];
        assert(self.slots[self.focused as int].current < self.slots[self.focused as int].huts.len());
        assert(is_top(self.slots, self.focused as int, self.out().current as int, top));
        self.law_focus_lands_on_a_console(top);
        let path = self.path(top);
        let t = self.innermost_cycled(dir);
        let m = path.len() as int;
        let leaf = path[m - 1];
        assert(self.nodes.contains_key(path[m - 1]));
        assert(self.nodes[leaf] is Console);
        assert(kids_of(self.kids, leaf).len() == 0) by {
            assert(!self.kids.contains_key(leaf));
        }
        if m > 1 {
            let x = path[m - 2];
            assert(self.nodes.contains_key(path[m - 2]));
            assert(self.focus_step(path[m - 2]) == Some(path[m - 2 + 1]));
            assert(!(self.nodes[x] is Console));
            let n = kids_of(self.kids, x).len() as int;
            assert(n >= 2 && self.active_of(x) < n);
            assert(self.cycling_level(path, m - 1) == m - 1);
            assert(self.cycling_level(path, m) == m - 1);
            assert(t == self.node_cycled(x, dir));
            law_step_leads_to_the_neighbour(n, self.active_of(x));
            assert(t.nodes.dom() =~= self.nodes.dom());
            assert forall|y: NodeId| #[trigger]
                self.nodes.contains_key(y) && t.nodes[y] != self.nodes[y] implies exists|j: int|
                0 <= j < path.len() && #[trigger] path[j] == y && kids_of(self.kids, y).len() >= 2
                    && forall|k: int|
                    j < k < path.len() ==> kids_of(self.kids, #[trigger] path[k]).len() < 2 by {
                assert(y == x);
                assert(path[m - 2] == y);
                assert forall|k: int| m - 2 < k < path.len() implies kids_of(
                    self.kids,
                    #[trigger] path[k],
                ).len() < 2 by {
                    assert(k == m - 1);
                }
            }
        } else {
            assert(self.cycling_level(path, 0) == 0);
            assert(self.cycling_level(path, 1) == 0);
            assert(t.nodes.dom() =~= self.nodes.dom());
        }
    }
}

impl StackView {
    /// Wrapping puts two children under a fresh node: the fresh console first,
    /// then the leaf that had focus, which stays the active one. In a Tile both
    /// take half. The node stands exactly where the leaf stood: at its position
    /// in the output's list, or among its parent's children, with the share
    /// that the leaf had there.
    pub proof fn law_wrap_pairs_the_leaf_with_a_fresh_console(self, kind: WrapKind, hut: HutView)
        requires
            self.well_formed(),
            self.next_id + 2 <= u64::MAX,
        ensures
            ({
                let t = self.wrapped(kind, hut);
                let o = self.out();
                let path = self.path(o.huts[o.current as int]);
                let leaf = path.last();
                let new = NodeId(self.next_id);
                let wrapper = NodeId((self.next_id + 1) as u64);
                &&& t.next_id == self.next_id + 2
                &&& t.focused == self.focused
                &&& t.kids.contains_key(wrapper)
                &&& t.kids[wrapper] == seq![new, leaf]
                &&& t.nodes.contains_key(new)
                &&& t.nodes[new] == NodeView::Console(hut)
                &&& t.nodes.contains_key(wrapper)
                &&& t.active_of(wrapper) == 1
                &&& t.nodes[leaf] == self.nodes[leaf]
                &&& match kind {
                    WrapKind::Tab => t.nodes[wrapper] is Tab && t.nodes[wrapper]->chrome == Map::<
                        NodeId,
                        u64,
                    >::empty(),
                    WrapKind::Tile(axis) => {
                        &&& t.nodes[wrapper] is Tile
                        &&& t.nodes[wrapper]->axis == axis
                        &&& frac_of(t.nodes[wrapper]->fracs, new) == 0x3fe0000000000000
                        &&& frac_of(t.nodes[wrapper]->fracs, leaf) == 0x3fe0000000000000
                    },
                }
                &&& path.len() == 1 ==> {
                    &&& t.slots == self.slots.update(
                        self.focused as int,
                        SlotView {
                            output: o.output,
                            position: o.position,
                            panel_id: o.panel_id,
                            huts: o.huts.update(o.current as int, wrapper),
                            current: o.current,
                            preview: o.preview,
                        },
                    )
                    &&& forall|p: NodeId| #[trigger]
                        self.kids.contains_key(p) ==> t.kids[p] == self.kids[p]
                }
                &&& path.len() > 1 ==> {
                    let g = path[path.len() - 2];
                    &&& t.slots == self.slots
                    &&& t.kids[g] == self.kids[g].update(self.active_of(g), wrapper)
                    &&& t.active_of(g) == self.active_of(g)
                    &&& self.nodes[g] is Tile ==> t.nodes[g] is Tile && t.nodes[g]->axis
                        == self.nodes[g]->axis && (!self.nodes[g]->fracs.contains_key(wrapper)
                        ==> frac_of(t.nodes[g]->fracs, wrapper) == frac_of(
                        self.nodes[g]->fracs,
                        leaf,
                    ))
                    &&& self.nodes[g] is Tab ==> t.nodes[g] is Tab
                    &&& forall|p: NodeId| #[trigger]
                        self.kids.contains_key(p) && p != g ==> t.kids[p] == self.kids[p]
                }
            }),
    {
        let s1 = self.with_node(NodeView::Console(hut));
        let f = self.focused as int;
        let o = self.out();
        assert(self.slots[f].current < self.slots[f].huts.len());
        let top = o.huts[o.current as int];
        assert(is_top(self.slots, f, o.current as int, top));
        self.law_focus_lands_on_a_console(top);
        let new = self.fresh_id();
        let wrapper = s1.fresh_id();
        assert(!self.nodes.contains_key(new));
        assert(self.path(top) == s1.path(top)) by {
            let a = |i: NodeId| self.focus_step(i);
            let b = |i: NodeId| s1.focus_step(i);
            assert forall|i: NodeId| #[trigger] a(i) == b(i) by {}
            assert(a =~= b);
        }
        assert(!self.nodes.contains_key(wrapper));
        let path = self.path(top);
        let leaf = path.last();
        let t = self.wrapped(kind, hut);
        assert(self.nodes.contains_key(leaf));
        assert(leaf != new && leaf != wrapper);
        if path.len() > 1 {
            let g = path[path.len() - 2];
            assert(self.nodes.contains_key(path[path.len() - 2]));
            assert(self.focus_step(path[path.len() - 2]) == Some(path[path.len() - 2 + 1]));
            self.lemma_steps_to_children();
            let list = kids_of(self.kids, g);
            let a = self.active_of(g);
            assert(is_kid(self.kids, g, a, leaf));
            list.index_of_first_ensures(leaf);
            let at = list.index_of_first(leaf)->0;
            assert(is_kid(self.kids, g, at, leaf));
            assert(g != wrapper && g != new && g != leaf);
            assert(t.kids[g] == list.update(at, wrapper));
        } else {
            assert(t.slots =~= self.slots.update(
                f,
                SlotView { huts: o.huts.update(o.current as int, wrapper), ..o },
            ));
        }
        assert forall|p: NodeId| #[trigger] self.kids.contains_key(p) implies p != wrapper by {
            assert(self.nodes.contains_key(p));
        }
    }
}

/// A pane that was never given a share has the full one.
pub proof fn law_share_of_a_pane(fracs: Map<NodeId, u64>, id: NodeId)
    ensures
        fracs.contains_key(id) ==> frac_of(fracs, id) == fracs[id],
        !fracs.contains_key(id) ==> frac_of(fracs, id) == 0x3ff0000000000000,
{
}

} // verus!
