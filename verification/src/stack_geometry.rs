//! Where things of a stack of Huts are on screen, and how large they are.
use vstd::prelude::*;

use crate::console_hut::{main_index, placed_index, ConsoleHut, GridFit, HutView};
use crate::graph::{ends, law_path_unfolds, path_by, rests, NodeId};
use crate::graph_nodes::{entry_at, HutNode, NodeView};
use crate::graph_stack::{node_views, GraphStack};
use crate::hut::{axis_extent, pane_rect, pane_rects, shares_fit, Axis};
use crate::stack_model::{consoles, StackView};
use crate::tree::{acyclic, kids_of, lemma_step_ends};

verus! {

/// Where a client surface is.
#[derive(Debug, Clone, Copy, PartialEq, Eq)]
pub enum LeafRect {
    /// It fills this rectangle (`x, y, width, height`).
    Area((i32, i32, i32, i32)),
    /// It floats at this position in the space of this console.
    Placed { hut: u64, position: (i32, i32) },
}

/// Where `root` is in a console that was given the rectangle `rect`.
pub open spec fn rect_in_console(hut: HutView, root: u64, rect: (i32, i32, i32, i32)) -> Option<
    LeafRect,
> {
    if main_index(hut.windows, root) < hut.windows.len() {
        Some(LeafRect::Area(rect))
    } else if placed_index(hut.space, root) < hut.space.len() {
        Some(
            LeafRect::Placed {
                hut: hut.id,
                position: hut.space[placed_index(hut.space, root)].position,
            },
        )
    } else {
        None
    }
}

/// Pane `i`'s rectangle on screen, the tiled area being `area`.
pub open spec fn pane_on_screen(
    axis: Axis,
    shares: Seq<i32>,
    area: (i32, i32, i32, i32),
    i: int,
) -> (int, int, int, int) {
    let p = pane_rect(axis, shares, (area.2, area.3), i);
    (p.0 + area.0, p.1 + area.1, p.2, p.3)
}

/// Whether every pane's rectangle on screen can be represented.
pub open spec fn panes_fit(axis: Axis, shares: Seq<i32>, area: (i32, i32, i32, i32)) -> bool {
    &&& shares_fit(shares, axis_extent(axis, (area.2, area.3)))
    &&& forall|i: int|
        0 <= i < shares.len() ==> {
            let p = #[trigger] pane_on_screen(axis, shares, area, i);
            i32::MIN <= p.0 <= i32::MAX && i32::MIN <= p.1 <= i32::MAX
        }
}

impl StackView {
    /// The child that a Tab node shows.
    pub open spec fn tab_step(self, id: NodeId) -> Option<NodeId> {
        if self.nodes.contains_key(id) {
            match self.nodes[id] {
                NodeView::Tab { active, .. } => entry_at(kids_of(self.kids, id), active as int),
                _ => None,
            }
        } else {
            None
        }
    }

    /// What `id` shows once every Tab node on the way is seen through.
    pub open spec fn behind_tabs(self, id: NodeId) -> NodeId {
        path_by(|i: NodeId| self.tab_step(i), id).last()
    }

    /// Where `root` is in the console that focus comes to rest on under pane
    /// `child`.
    pub open spec fn rect_in_pane(
        self,
        child: NodeId,
        root: u64,
        rect: (i32, i32, i32, i32),
    ) -> Option<LeafRect> {
        if self.focus_lands(child) {
            rect_in_console(self.focused_console(child), root, rect)
        } else {
            None
        }
    }

    /// Where `root` is in the first of the panes from `i` on that has it.
    pub open spec fn rect_in_panes(
        self,
        axis: Axis,
        children: Seq<NodeId>,
        root: u64,
        shares: Seq<i32>,
        area: (i32, i32, i32, i32),
        i: int,
    ) -> Option<LeafRect>
        decreases children.len() - i,
    {
        if i < 0 || i >= children.len() {
            None
        } else {
            let p = pane_on_screen(axis, shares, area, i);
            match self.rect_in_pane(
                children[i],
                root,
                (p.0 as i32, p.1 as i32, p.2 as i32, p.3 as i32),
            ) {
                Some(r) => Some(r),
                None => self.rect_in_panes(axis, children, root, shares, area, i + 1),
            }
        }
    }

    /// Where `root` is under `top`, which was given `area`.
    pub open spec fn leaf_rect(
        self,
        top: NodeId,
        root: u64,
        area: (i32, i32, i32, i32),
        shares: Seq<i32>,
    ) -> Option<LeafRect> {
        let id = self.behind_tabs(top);
        if !self.nodes.contains_key(id) {
            None
        } else {
            match self.nodes[id] {
                NodeView::Console(hut) => rect_in_console(hut, root, area),
                NodeView::Tab { .. } => None,
                NodeView::Tile { axis, .. } => self.rect_in_panes(
                    axis,
                    kids_of(self.kids, id),
                    root,
                    shares,
                    area,
                    0,
                ),
            }
        }
    }

    proof fn lemma_tab_steps_end(self, id: NodeId)
        requires
            acyclic(self.kids),
        ensures
            ends(|i: NodeId| self.tab_step(i), id),
    {
        let step = |i: NodeId| self.tab_step(i);
        assert forall|i: NodeId| (#[trigger] step(i)) is Some implies kids_of(
            self.kids,
            i,
        ).contains(step(i)->0) by {
            let active = match self.nodes[i] {
                NodeView::Tab { active, .. } => active,
                _ => 0,
            };
            assert(kids_of(self.kids, i)[active as int] == step(i)->0);
        }
        lemma_step_ends(self.kids, step, id);
    }
}

fn locate(hut: &ConsoleHut, root: u64, rect: (i32, i32, i32, i32)) -> (r: Option<LeafRect>)
    ensures
        r == rect_in_console(hut@, root, rect),
{
    if hut.has_bare_main_window(root) {
        return Some(LeafRect::Area(rect));
    }
    match hut.placed_at(root) {
        Some(position) => Some(LeafRect::Placed { hut: hut.id(), position }),
        None => None,
    }
}

impl GraphStack {
    /// What `top` shows once every Tab node on the way is seen through: a
    /// console, or the Tile node whose panes' shares the other functions here
    /// ask for.
    pub fn behind_tabs(&self, top: NodeId) -> (r: NodeId)
        requires
            acyclic(self@.kids),
        ensures
            r == self@.behind_tabs(top),
    {
        let ghost step = |i: NodeId| self@.tab_step(i);
        let mut current = top;
        proof {
            self@.lemma_tab_steps_end(top);
        }
        let ghost mut left: nat = choose|n: nat| rests(step, top, n);
        assert(rests(step, top, left));
        loop
            invariant
                acyclic(self@.kids),
                step == (|i: NodeId| self@.tab_step(i)),
                ends(step, current),
                rests(step, current, left),
                path_by(step, current).len() > 0,
                path_by(step, top).last() == path_by(step, current).last(),
            ensures
                current == self@.behind_tabs(top),
            decreases left,
        {
            proof {
                law_path_unfolds(step, current);
            }
            let graph = self.graph();
            let next: Option<NodeId> = match graph.node(current) {
                Some(HutNode::Tab(tab)) => {
                    assert(self@.nodes[current] == graph@.nodes[current]@);
                    let children = graph.hut_list_input(current, "children");
                    assert(children@ == kids_of(self@.kids, current));
                    if tab.active < children.len() {
                        Some(children[tab.active])
                    } else {
                        None
                    }
                },
                Some(other) => {
                    assert(self@.nodes[current] == other@);
                    None
                },
                None => {
                    assert(!node_views(graph@.nodes).contains_key(current));
                    None
                },
            };
            assert(next == step(current));
            match next {
                None => {
                    break ;
                },
                Some(child) => {
                    proof {
                        left = (left - 1) as nat;
                        law_path_unfolds(step, child);
                        assert(path_by(step, current).last() == path_by(step, child).last());
                    }
                    current = child;
                },
            }
        }
        current
    }

    /// Where a client surface is under `top`, which was given `area`; `None`
    /// if it is not on screen there.
    ///
    /// `shares` are the pixel extents of the panes of the Tile node behind
    /// `top`, if that is what is there.
    pub fn leaf_absolute_rect(
        &self,
        top: NodeId,
        root: u64,
        area: (i32, i32, i32, i32),
        shares: &Vec<i32>,
    ) -> (r: Option<LeafRect>)
        requires
            acyclic(self@.kids),
            ({
                let id = self@.behind_tabs(top);
                self@.nodes.contains_key(id) ==> (self@.nodes[id] matches NodeView::Tile {
                    axis,
                    ..
                } ==> shares@.len() == kids_of(self@.kids, id).len() && panes_fit(
                    axis,
                    shares@,
                    area,
                ))
            }),
        ensures
            r == self@.leaf_rect(top, root, area, shares@),
    {
        let id = self.behind_tabs(top);
        let graph = self.graph();
        match graph.node(id) {
            None => {
                assert(!node_views(graph@.nodes).contains_key(id));
                None
            },
            Some(HutNode::Tab(_)) => {
                assert(self@.nodes[id] == graph@.nodes[id]@);
                None
            },
            Some(HutNode::Console(hut)) => {
                assert(self@.nodes[id] == graph@.nodes[id]@);
                locate(hut, root, area)
            },
            Some(HutNode::Tile(tile)) => {
                assert(self@.nodes[id] == graph@.nodes[id]@);
                let children = graph.hut_list_input(id, "children");
                assert(children@ == kids_of(self@.kids, id));
                let rects = pane_rects(tile.axis, shares, (area.2, area.3));
                for i in 0..children.len()
                    invariant
                        acyclic(self@.kids),
                        shares@.len() == children@.len(),
                        rects@.len() == shares@.len(),
                        panes_fit(tile.axis, shares@, area),
                        forall|j: int|
                            0 <= j < shares@.len() ==> {
                                let p = pane_rect(tile.axis, shares@, (area.2, area.3), j);
                                (#[trigger] rects@[j]) == (
                                    p.0 as i32,
                                    p.1 as i32,
                                    p.2 as i32,
                                    p.3 as i32,
                                ) && i32::MIN <= p.2 <= i32::MAX && i32::MIN <= p.3 <= i32::MAX
                                    && i32::MIN <= p.0 <= i32::MAX && i32::MIN <= p.1 <= i32::MAX
                            },
                        self@.rect_in_panes(tile.axis, children@, root, shares@, area, 0)
                            == self@.rect_in_panes(
                            tile.axis,
                            children@,
                            root,
                            shares@,
                            area,
                            i as int,
                        ),
                        self@.leaf_rect(top, root, area, shares@) == self@.rect_in_panes(
                            tile.axis,
                            children@,
                            root,
                            shares@,
                            area,
                            0,
                        ),
                {
                    let rect = rects[i];
                    let ghost on = pane_on_screen(tile.axis, shares@, area, i as int);
                    assert(rect.0 + area.0 == on.0 && rect.1 + area.1 == on.1);
                    let moved = (rect.0 + area.0, rect.1 + area.1, rect.2, rect.3);
                    match self.console_under(children[i]) {
                        Some(hut) => {
                            let found = locate(hut, root, moved);
                            if found.is_some() {
                                return found;
                            }
                        },
                        None => {},
                    }
                }
                None
            },
        }
    }

    /// Where the focused pane of `top` starts on screen; the start of `area`
    /// if `top` is not split. `shares` are the pixel extents of its panes.
    pub fn active_pane_offset(
        &self,
        top: NodeId,
        area: (i32, i32, i32, i32),
        shares: &Vec<i32>,
    ) -> (r: (i32, i32))
        requires
            self@.nodes.contains_key(top) ==> (self@.nodes[top] matches NodeView::Tile {
                axis,
                ..
            } ==> shares@.len() == kids_of(self@.kids, top).len() && panes_fit(
                axis,
                shares@,
                area,
            )),
        ensures
            ({
                let n = kids_of(self@.kids, top).len();
                if self@.nodes.contains_key(top) && self@.nodes[top] is Tile && n >= 2 {
                    let active = self@.nodes[top]->Tile_active as int;
                    let i = if active < n {
                        active
                    } else {
                        n - 1
                    };
                    let p = pane_on_screen(self@.nodes[top]->axis, shares@, area, i);
                    r == (p.0 as i32, p.1 as i32)
                } else {
                    r == (area.0, area.1)
                }
            }),
    {
        let graph = self.graph();
        match graph.node(top) {
            Some(HutNode::Tile(tile)) => {
                assert(self@.nodes[top] == graph@.nodes[top]@);
                let n: usize = graph.hut_list_input(top, "children").len();
                assert(n == kids_of(self@.kids, top).len());
                if n < 2 {
                    return (area.0, area.1);
                }
                let rects = pane_rects(tile.axis, shares, (area.2, area.3));
                let i: usize = if tile.active < n {
                    tile.active
                } else {
                    n - 1
                };
                let ghost on = pane_on_screen(tile.axis, shares@, area, i as int);
                assert(rects@[i as int].0 + area.0 == on.0 && rects@[i as int].1 + area.1 == on.1);
                (area.0 + rects[i].0, area.1 + rects[i].1)
            },
            Some(other) => {
                assert(self@.nodes[top] == other@);
                (area.0, area.1)
            },
            None => {
                assert(!node_views(graph@.nodes).contains_key(top));
                (area.0, area.1)
            },
        }
    }

    /// The size that each child of `id` takes on when `id` is given `size`:
    /// under a Tab node each the whole of it, under a Tile node each its pane.
    pub fn child_sizes(&self, id: NodeId, size: (i32, i32), shares: &Vec<i32>) -> (r: Vec<
        (NodeId, (i32, i32)),
    >)
        requires
            self@.nodes.contains_key(id) ==> (self@.nodes[id] matches NodeView::Tile {
                axis,
                ..
            } ==> shares@.len() == kids_of(self@.kids, id).len() && shares_fit(
                shares@,
                axis_extent(axis, size),
            )),
        ensures
            ({
                let children = kids_of(self@.kids, id);
                if self@.nodes.contains_key(id) && self@.nodes[id] is Tab {
                    r@ == children.map_values(|c: NodeId| (c, size))
                } else if self@.nodes.contains_key(id) && self@.nodes[id] is Tile {
                    &&& r@.len() == children.len()
                    &&& forall|i: int|
                        0 <= i < children.len() ==> (#[trigger] r@[i]) == ({
                            let p = pane_rect(self@.nodes[id]->axis, shares@, size, i);
                            (children[i], (p.2 as i32, p.3 as i32))
                        })
                } else {
                    r@.len() == 0
                }
            }),
    {
        let graph = self.graph();
        let children = graph.hut_list_input(id, "children");
        assert(children@ == kids_of(self@.kids, id));
        let mut out: Vec<(NodeId, (i32, i32))> = Vec::new();
        match graph.node(id) {
            Some(HutNode::Tab(_)) => {
                assert(self@.nodes[id] == graph@.nodes[id]@);
                for i in 0..children.len()
                    invariant
                        out@.len() == i,
                        forall|j: int| 0 <= j < i ==> #[trigger] out@[j] == (children@[j], size),
                {
                    out.push((children[i], size));
                }
                assert(out@ =~= children@.map_values(|c: NodeId| (c, size)));
            },
            Some(HutNode::Tile(tile)) => {
                assert(self@.nodes[id] == graph@.nodes[id]@);
                let rects = pane_rects(tile.axis, shares, size);
                for i in 0..children.len()
                    invariant
                        out@.len() == i,
                        rects@.len() == shares@.len(),
                        shares@.len() == children@.len(),
                        forall|j: int|
                            0 <= j < i ==> #[trigger] out@[j] == (
                                children@[j],
                                (rects@[j].2, rects@[j].3),
                            ),
                {
                    out.push((children[i], (rects[i].2, rects[i].3)));
                }
            },
            Some(other) => {
                assert(self@.nodes[id] == other@);
            },
            None => {
                assert(!node_views(graph@.nodes).contains_key(id));
            },
        }
        out
    }

    /// Gives a console a new size. Returns its number and the grid its
    /// terminal must take on, unless the size is the one it has or `id` is no
    /// console.
    pub fn resize_console(&mut self, id: NodeId, size: (i32, i32), cell: (usize, usize)) -> (r: Option<
        (u64, GridFit),
    >)
        ensures
            final(self).same_frame(*old(self)),
            if old(self)@.nodes.contains_key(id) && old(self)@.nodes[id] is Console {
                let hut = old(self)@.nodes[id]->Console_0;
                &&& final(self)@ == old(self)@.with_console(
                    id,
                    HutView { pixel_size: size, ..hut },
                )
                &&& r == (if hut.pixel_size == size {
                    None::<(u64, GridFit)>
                } else {
                    Some((hut.id, crate::console_hut::grid_for(size, cell)))
                })
            } else {
                r is None && final(self)@ == old(self)@
            },
    {
        let is_console = match self.graph().node(id) {
            Some(HutNode::Console(hut)) => {
                assert(self@.nodes[id] == NodeView::Console(hut@));
                true
            },
            Some(other) => {
                assert(self@.nodes[id] == other@);
                false
            },
            None => false,
        };
        if !is_console {
            assert(!(self@.nodes.contains_key(id) && self@.nodes[id] is Console));
            return None;
        }
        match self.console_mut(id) {
            Some(hut) => {
                let number: u64 = hut.id();
                match hut.resize_to_pixels(size.0, size.1, cell) {
                    Some(grid) => Some((number, grid)),
                    None => None,
                }
            },
            None => None,
        }
    }

    /// The grid that each console's terminal must take on once cells are
    /// `cell` pixels.
    pub fn rescale_all(&self, cell: (usize, usize)) -> (r: Vec<(u64, GridFit)>)
        requires
            acyclic(self@.kids),
        ensures
            ({
                let huts = consoles(self@.nodes, self@.all_ids());
                &&& r@.len() == huts.len()
                &&& forall|i: int|
                    0 <= i < huts.len() ==> #[trigger] r@[i] == (
                        huts[i].id,
                        crate::console_hut::grid_for(huts[i].pixel_size, cell),
                    )
            }),
    {
        let huts = self.all_huts();
        let ghost views = huts@.map_values(|h: &ConsoleHut| h@);
        let mut out: Vec<(u64, GridFit)> = Vec::new();
        for i in 0..huts.len()
            invariant
                views == huts@.map_values(|h: &ConsoleHut| h@),
                out@.len() == i,
                forall|j: int|
                    0 <= j < i ==> #[trigger] out@[j] == (
                        views[j].id,
                        crate::console_hut::grid_for(views[j].pixel_size, cell),
                    ),
        {
            assert(views[i as int] == huts@[i as int]@);
            let hut = huts[i];
            out.push((hut.id(), hut.rescale(cell)));
        }
        out
    }
}

} // verus!
