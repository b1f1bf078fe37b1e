//! What every operation on a stack of Huts keeps: each reference leads to a
//! node, no node is referred to twice, Tab and Tile nodes have something to
//! show, and every output shows one of its own entries.
use vstd::prelude::*;

use crate::console_hut::{ConsoleHut, HutView};
use crate::graph::{without, NodeId};
use crate::graph_nodes::NodeView;
use crate::stack_model::{node_child_swapped, SlotView, StackView, WrapKind};
use crate::tree::{acyclic, kids_of, ranked, some_rank, Kids};

verus! {

/// Whether `x` is child `j` of `p`.
pub open spec fn is_kid(k: Kids, p: NodeId, j: int, x: NodeId) -> bool {
    k.contains_key(p) && 0 <= j < k[p].len() && k[p][j] == x
}

/// Whether `x` is the top-level entry `j` of output `i`.
pub open spec fn is_top(slots: Seq<SlotView>, i: int, j: int, x: NodeId) -> bool {
    0 <= i < slots.len() && 0 <= j < slots[i].huts.len() && slots[i].huts[j] == x
}

impl StackView {
    /// Every reference leads to a node.
    pub open spec fn linked(self) -> bool {
        &&& forall|p: NodeId, j: int, x: NodeId| #[trigger]
            is_kid(self.kids, p, j, x) ==> self.nodes.contains_key(x)
        &&& forall|i: int, j: int, x: NodeId| #[trigger]
            is_top(self.slots, i, j, x) ==> self.nodes.contains_key(x)
    }

    /// No node is referred to twice.
    pub open spec fn unshared(self) -> bool {
        &&& forall|p: NodeId, j: int, q: NodeId, l: int, x: NodeId| #[trigger]
            is_kid(self.kids, p, j, x) && #[trigger] is_kid(self.kids, q, l, x) ==> p == q && j == l
        &&& forall|i: int, j: int, m: int, l: int, x: NodeId| #[trigger]
            is_top(self.slots, i, j, x) && #[trigger] is_top(self.slots, m, l, x) ==> i == m && j
                == l
        &&& forall|p: NodeId, j: int, i: int, l: int, x: NodeId| #[trigger]
            is_kid(self.kids, p, j, x) ==> !#[trigger] is_top(self.slots, i, l, x)
    }

    /// Every Tab or Tile node has two children or more, one of them active.
    pub open spec fn filled(self) -> bool {
        forall|id: NodeId| #[trigger]
            self.nodes.contains_key(id) ==> match self.nodes[id] {
                NodeView::Console(_) => true,
                NodeView::Tab { active, .. } => self.kids.contains_key(id) && self.kids[id].len()
                    >= 2 && active < self.kids[id].len(),
                NodeView::Tile { active, .. } => self.kids.contains_key(id) && self.kids[id].len()
                    >= 2 && active < self.kids[id].len(),
            }
    }

    /// The tree of nodes is sound.
    pub open spec fn sound(self) -> bool {
        &&& self.shaped()
        &&& self.linked()
        &&& self.unshared()
        &&& self.filled()
        &&& self.focused < self.slots.len()
    }

    /// Every output's indices lie within its list.
    pub open spec fn indexed(self) -> bool {
        forall|i: int|
            0 <= i < self.slots.len() ==> (#[trigger] self.slots[i]).current
                < self.slots[i].huts.len() && (self.slots[i].preview is Some
                ==> self.slots[i].preview->0 < self.slots[i].huts.len())
    }

    /// The tree of nodes is sound, and every output's indices lie within its
    /// list.
    pub open spec fn well_formed(self) -> bool {
        &&& self.sound()
        &&& self.indexed()
    }

    /// Changing an output's indices, but not its entries, keeps the tree
    /// sound.
    pub proof fn lemma_reindexed(self, i: int, slot: SlotView)
        requires
            self.sound(),
            0 <= i < self.slots.len(),
            slot.huts == self.slots[i].huts,
        ensures
            self.with_slot(i, slot).sound(),
    {
        let s = self.with_slot(i, slot);
        assert forall|a: int, b: int, x: NodeId| #[trigger] is_top(s.slots, a, b, x) implies is_top(
            self.slots,
            a,
            b,
            x,
        ) by {}
        assert(s.linked());
        assert(s.unshared());
    }

    /// A fresh console at the end of an output keeps the tree sound.
    pub proof fn lemma_spawned_sound(self, i: int, hut: HutView)
        requires
            self.sound(),
            0 <= i < self.slots.len(),
            self.next_id < u64::MAX,
        ensures
            self.spawned(i, hut).sound(),
    {
        let s = self.spawned(i, hut);
        let f = self.fresh_id();
        assert(!self.nodes.contains_key(f));
        assert forall|p: NodeId, j: int, x: NodeId| #[trigger] is_kid(s.kids, p, j, x) implies is_kid(
            self.kids,
            p,
            j,
            x,
        ) && x != f by {
            assert(is_kid(self.kids, p, j, x));
        }
        assert forall|a: int, b: int, x: NodeId| #[trigger] is_top(s.slots, a, b, x) implies (
        is_top(self.slots, a, b, x) && x != f) || (a == i && b == self.slots[i].huts.len() && x
            == f) by {
            if is_top(self.slots, a, b, x) {
                assert(self.nodes.contains_key(x));
            }
        }
        assert(s.linked());
        assert(s.unshared());
        assert(s.filled());
        assert(s.containers_only());
        assert(s.numbered());
    }

    /// Taking a console out of an output's entries keeps the tree sound.
    pub proof fn lemma_top_dropped_sound(self, i: int, at: int, slot: SlotView)
        requires
            self.sound(),
            0 <= i < self.slots.len(),
            0 <= at < self.slots[i].huts.len(),
            self.nodes[self.slots[i].huts[at]] is Console,
            slot.huts == self.slots[i].huts.remove(at),
        ensures
            self.without_node(self.slots[i].huts[at]).with_slot(i, slot).sound(),
    {
        let id = self.slots[i].huts[at];
        let s = self.without_node(id).with_slot(i, slot);
        assert(is_top(self.slots, i, at, id));
        assert forall|p: NodeId| #[trigger] self.kids.contains_key(p) implies without(
            self.kids[p],
            id,
        ) == self.kids[p] && p != id by {
            if self.kids[p].contains(id) {
                let j = choose|j: int| 0 <= j < self.kids[p].len() && self.kids[p][j] == id;
                assert(is_kid(self.kids, p, j, id));
            }
            lemma_without_absent(self.kids[p], id);
        }
        assert(s.kids =~= self.kids);
        assert forall|a: int, b: int, x: NodeId| #[trigger] is_top(s.slots, a, b, x) implies is_top(
            self.slots,
            a,
            if a == i && b >= at {
                b + 1
            } else {
                b
            },
            x,
        ) && x != id by {
            let b2 = if a == i && b >= at {
                b + 1
            } else {
                b
            };
            assert(is_top(self.slots, a, b2, x));
        }
        assert forall|p: NodeId, j: int, x: NodeId| #[trigger] is_kid(s.kids, p, j, x) implies x
            != id by {
            assert(is_kid(self.kids, p, j, x));
        }
        assert(s.linked());
        assert(s.unshared());
        assert(s.filled());
    }

    /// Marking a node used keeps the tree sound.
    pub proof fn lemma_marked_sound(self, id: NodeId)
        requires
            self.sound(),
        ensures
            self.marked(id).sound(),
    {
        let s = self.marked(id);
        assert(s.kids == self.kids && s.slots == self.slots);
        assert(s.filled());
        assert(s.linked());
        assert(s.unshared());
    }

    /// Committing a preview keeps a stack well formed.
    pub proof fn law_commit_keeps_well_formed(self)
        requires
            self.well_formed(),
        ensures
            self.committed().well_formed(),
            self.committed().out().preview is None,
            self.committed().out().huts.len() == self.out().huts.len(),
    {
        match self.out().preview {
            None => {},
            Some(pos) => {
                let o = self.out();
                let f = self.focused as int;
                let id = o.huts[pos as int];
                self.lemma_marked_sound(id);
                let m = self.marked(id);
                let s = self.committed();
                let huts = seq![id] + o.huts.remove(pos as int);
                assert(s.slots[f].huts == huts);
                assert forall|a: int, b: int, x: NodeId| #[trigger]
                    is_top(s.slots, a, b, x) implies is_top(
                    m.slots,
                    a,
                    if a == f {
                        if b == 0 {
                            pos as int
                        } else if b <= pos {
                            b - 1
                        } else {
                            b
                        }
                    } else {
                        b
                    },
                    x,
                ) by {}
                assert(s.kids == m.kids && s.nodes == m.nodes);
                assert(s.linked());
                assert(s.unshared());
                assert(s.sound());
            },
        }
    }
}

impl StackView {
    /// Where an entry is discarded, it is a console that was never used.
    proof fn lemma_discarded_sound(self, pos: int, protect: Option<usize>)
        requires
            self.sound(),
            0 <= pos < self.out().huts.len(),
            !self.keeps(pos, protect),
        ensures
            self.discarded(pos).sound(),
            self.discarded(pos).next_id == self.next_id,
            self.discarded(pos).focused == self.focused,
    {
        let i = self.focused as int;
        assert(is_top(self.slots, i, pos, self.out().huts[pos]));
        self.lemma_top_dropped_sound(
            i,
            pos,
            self.slot_without(pos),
        );
    }

    proof fn lemma_forward_sound(self, pos: int, protect: Option<usize>, hut: HutView)
        requires
            self.sound(),
            0 <= pos < self.out().huts.len(),
            self.forward_spawns(pos, protect) ==> self.next_id < u64::MAX,
        ensures
            self.forward(pos, protect, hut).0.sound(),
            0 <= self.forward(pos, protect, hut).1 < self.forward(
                pos,
                protect,
                hut,
            ).0.out().huts.len(),
            self.forward(pos, protect, hut).0.focused == self.focused,
            self.forward(pos, protect, hut).0.slots.len() == self.slots.len(),
            self.forward(pos, protect, hut).0.out().huts.len() + 1 >= self.out().huts.len(),
            forall|i: int|
                0 <= i < self.slots.len() && i != self.focused ==> (#[trigger] self.forward(
                    pos,
                    protect,
                    hut,
                ).0.slots[i]) == self.slots[i],
    {
        if !self.keeps(pos, protect) {
            self.lemma_discarded_sound(pos, protect);
        }
        let (s, p) = self.left_forward(pos, protect);
        if p >= s.out().huts.len() {
            s.lemma_spawned_sound(s.focused as int, hut);
        }
    }

    /// Moving on keeps the tree sound, whatever comes of starting a console.
    pub proof fn lemma_next_sound(self, fresh: Option<Result<ConsoleHut, String>>)
        requires
            self.well_formed(),
            fresh is Some && fresh->0 is Ok ==> self.next_id < u64::MAX,
        ensures
            ({
                let (s, p) = self.left_forward(self.out().current as int, None);
                &&& s.sound()
                &&& s.at(p).sound()
                &&& fresh is Some && fresh->0 is Ok ==> s.spawned(
                    s.focused as int,
                    fresh->0->Ok_0@,
                ).at(p).sound()
            }),
    {
        let pos = self.out().current as int;
        let f = self.focused as int;
        assert(self.slots[f].current < self.slots[f].huts.len());
        if !self.keeps(pos, None) {
            self.lemma_discarded_sound(pos, None);
        }
        let (s, p) = self.left_forward(pos, None);
        s.lemma_reindexed(f, SlotView { current: p as usize, ..s.out() });
        if fresh is Some && fresh->0 is Ok {
            let hut = fresh->0->Ok_0@;
            s.lemma_spawned_sound(f, hut);
            let t = s.spawned(f, hut);
            t.lemma_reindexed(f, SlotView { current: p as usize, ..t.out() });
        }
    }

    /// Moving back keeps the tree sound.
    pub proof fn lemma_prev_sound(self)
        requires
            self.well_formed(),
        ensures
            ({
                let (s, p) = self.backward(self.out().current as int, None);
                s.at(p).sound()
            }),
    {
        let pos = self.out().current as int;
        let f = self.focused as int;
        assert(self.slots[f].current < self.slots[f].huts.len());
        if pos > 0 && !self.keeps(pos, None) {
            self.lemma_discarded_sound(pos, None);
        }
        let (s, p) = self.backward(pos, None);
        s.lemma_reindexed(f, SlotView { current: p as usize, ..s.out() });
    }

    /// Moving on to the next entry keeps a stack well formed, and lands on
    /// one of its entries, so long as an open preview still stands on one.
    pub proof fn law_next_keeps_well_formed(self, hut: HutView)
        requires
            self.well_formed(),
            self.forward_spawns(self.out().current as int, None) ==> self.next_id < u64::MAX,
            self.out().preview is Some ==> self.out().preview->0 < self.forward(
                self.out().current as int,
                None,
                hut,
            ).0.out().huts.len(),
        ensures
            ({
                let (s, p) = self.forward(self.out().current as int, None, hut);
                s.at(p).well_formed()
            }),
    {
        let pos = self.out().current as int;
        let f = self.focused as int;
        assert(self.slots[f].current < self.slots[f].huts.len());
        self.lemma_forward_sound(pos, None, hut);
        let (s, p) = self.forward(pos, None, hut);
        s.lemma_reindexed(f, SlotView { current: p as usize, ..s.out() });
        assert(s.out().preview == self.out().preview);
        assert forall|i: int| 0 <= i < s.at(p).slots.len() implies (#[trigger] s.at(
            p,
        ).slots[i]).current < s.at(p).slots[i].huts.len() && (s.at(p).slots[i].preview is Some
            ==> s.at(p).slots[i].preview->0 < s.at(p).slots[i].huts.len()) by {
            if i != f {
                assert(s.slots[i] == self.slots[i]);
            }
        }
    }

    /// Moving back keeps a stack well formed, so long as an open preview still
    /// stands on an entry.
    pub proof fn law_prev_keeps_well_formed(self)
        requires
            self.well_formed(),
            self.out().preview is Some ==> self.out().preview->0 < self.backward(
                self.out().current as int,
                None,
            ).0.out().huts.len(),
        ensures
            ({
                let (s, p) = self.backward(self.out().current as int, None);
                s.at(p).well_formed()
            }),
    {
        let pos = self.out().current as int;
        let f = self.focused as int;
        assert(self.slots[f].current < self.slots[f].huts.len());
        if pos > 0 && !self.keeps(pos, None) {
            self.lemma_discarded_sound(pos, None);
        }
        let (s, p) = self.backward(pos, None);
        s.lemma_reindexed(f, SlotView { current: p as usize, ..s.out() });
        assert forall|i: int| 0 <= i < s.at(p).slots.len() implies (#[trigger] s.at(
            p,
        ).slots[i]).current < s.at(p).slots[i].huts.len() && (s.at(p).slots[i].preview is Some
            ==> s.at(p).slots[i].preview->0 < s.at(p).slots[i].huts.len()) by {
            if i != f {
                assert(s.slots[i] == self.slots[i]);
            }
        }
    }

    /// Whether the focused output's current entry is the same as in `other`.
    pub open spec fn shows_the_same(self, other: StackView) -> bool {
        &&& self.focused == other.focused
        &&& self.out().current < self.out().huts.len()
        &&& self.out().huts[self.out().current as int]
            == other.out().huts[other.out().current as int]
    }

    /// Moving a preview forwards keeps a stack well formed, and leaves the
    /// current entry the current one.
    pub proof fn law_preview_next_keeps_well_formed(self, hut: HutView)
        requires
            self.well_formed(),
            self.forward_spawns(
                self.out().preview_index() as int,
                Some(self.out().current),
            ) ==> self.next_id < u64::MAX,
        ensures
            ({
                let o = self.out();
                let (s, p) = self.forward(o.preview_index() as int, Some(o.current), hut);
                &&& s.previewing(p).well_formed()
                &&& s.previewing(p).shows_the_same(self)
            }),
    {
        let o = self.out();
        let pos = o.preview_index() as int;
        let f = self.focused as int;
        assert(self.slots[f].current < self.slots[f].huts.len());
        let protect = Some(o.current);
        self.lemma_forward_sound(pos, protect, hut);
        let (s, p) = self.forward(pos, protect, hut);
        s.lemma_reindexed(f, SlotView { preview: Some(p as usize), ..s.out() });
        let t = s.previewing(p);
        assert forall|i: int| 0 <= i < t.slots.len() implies (#[trigger] t.slots[i]).current
            < t.slots[i].huts.len() && (t.slots[i].preview is Some ==> t.slots[i].preview->0
            < t.slots[i].huts.len()) by {
            if i != f {
                assert(s.slots[i] == self.slots[i]);
            }
        }
    }

    /// Moving a preview backwards, or opening one at the end, keeps a stack
    /// well formed, and leaves the current entry the current one.
    pub proof fn law_preview_prev_keeps_well_formed(self)
        requires
            self.well_formed(),
        ensures
            ({
                let o = self.out();
                match o.preview {
                    Some(pos) => {
                        let (s, p) = self.backward(pos as int, Some(o.current));
                        s.previewing(p).well_formed() && s.previewing(p).shows_the_same(self)
                    },
                    None => {
                        let t = self.previewing(o.huts.len() - 1);
                        t.well_formed() && t.shows_the_same(self)
                    },
                }
            }),
    {
        let o = self.out();
        let f = self.focused as int;
        assert(self.slots[f].current < self.slots[f].huts.len());
        let (s, p) = match o.preview {
            Some(pos) => {
                if pos > 0 && !self.keeps(pos as int, Some(o.current)) {
                    self.lemma_discarded_sound(pos as int, Some(o.current));
                }
                self.backward(pos as int, Some(o.current))
            },
            None => (self, o.huts.len() - 1),
        };
        s.lemma_reindexed(f, SlotView { preview: Some(p as usize), ..s.out() });
        let t = s.previewing(p);
        assert forall|i: int| 0 <= i < t.slots.len() implies (#[trigger] t.slots[i]).current
            < t.slots[i].huts.len() && (t.slots[i].preview is Some ==> t.slots[i].preview->0
            < t.slots[i].huts.len()) by {
            if i != f {
                assert(s.slots[i] == self.slots[i]);
            }
        }
    }

    /// A fresh console at the end of an output keeps a stack well formed and
    /// moves no index.
    pub proof fn law_spawn_keeps_well_formed(self, i: int, hut: HutView)
        requires
            self.well_formed(),
            0 <= i < self.slots.len(),
            self.next_id < u64::MAX,
        ensures
            self.spawned(i, hut).well_formed(),
            self.spawned(i, hut).slots[i].current == self.slots[i].current,
            self.spawned(i, hut).slots[i].preview == self.slots[i].preview,
    {
        self.lemma_spawned_sound(i, hut);
        let s = self.spawned(i, hut);
        assert forall|a: int| 0 <= a < s.slots.len() implies (#[trigger] s.slots[a]).current
            < s.slots[a].huts.len() && (s.slots[a].preview is Some ==> s.slots[a].preview->0
            < s.slots[a].huts.len()) by {
            assert(self.slots[a].current < self.slots[a].huts.len());
        }
    }

    /// Following focus down from any node of a sound tree comes to rest on a
    /// console.
    pub proof fn law_focus_lands_on_a_console(self, id: NodeId)
        requires
            self.sound(),
            self.nodes.contains_key(id),
        ensures
            self.focus_lands(id),
            self.path(id).len() > 0,
            self.path(id)[0] == id,
            forall|j: int| 0 <= j < self.path(id).len() ==> self.nodes.contains_key(#[trigger] self.path(id)[j]),
            forall|j: int|
                0 <= j < self.path(id).len() - 1 ==> self.focus_step(#[trigger] self.path(id)[j])
                    == Some(self.path(id)[j + 1]),
        decreases some_rank(self.kids)(id),
    {
        let step = |i: NodeId| self.focus_step(i);
        let rank = some_rank(self.kids);
        assert(ranked(self.kids, rank));
        self.lemma_steps_to_children();
        crate::tree::lemma_step_ends(self.kids, step, id);
        crate::graph::law_path_unfolds(step, id);
        match step(id) {
            None => {
                assert(self.nodes[id] is Console);
            },
            Some(next) => {
                let j = choose|j: int|
                    0 <= j < kids_of(self.kids, id).len() && kids_of(self.kids, id)[j] == next;
                assert(is_kid(self.kids, id, j, next));
                assert(rank(self.kids[id][j]) < rank(id));
                self.law_focus_lands_on_a_console(next);
                let tail = self.path(next);
                assert(self.path(id) == seq![id] + tail);
                assert(self.path(id).last() == tail.last());
                assert forall|a: int| 0 <= a < self.path(id).len() implies self.nodes.contains_key(
                    #[trigger] self.path(id)[a],
                ) by {
                    if a > 0 {
                        assert(self.path(id)[a] == tail[a - 1]);
                    }
                }
                assert forall|a: int| 0 <= a < self.path(id).len() - 1 implies self.focus_step(
                    #[trigger] self.path(id)[a],
                ) == Some(self.path(id)[a + 1]) by {
                    assert(self.path(id)[a + 1] == tail[a]);
                    if a > 0 {
                        assert(self.path(id)[a] == tail[a - 1]);
                        assert(self.focus_step(tail[a - 1]) == Some(tail[a - 1 + 1]));
                    }
                }
            },
        }
    }

    pub proof fn lemma_steps_to_children(self)
        ensures
            forall|i: NodeId|
                (#[trigger] self.focus_step(i)) is Some ==> kids_of(self.kids, i).contains(
                    self.focus_step(i)->0,
                ),
    {
        assert forall|i: NodeId| (#[trigger] self.focus_step(i)) is Some implies kids_of(
            self.kids,
            i,
        ).contains(self.focus_step(i)->0) by {
            let active = match self.nodes[i] {
                NodeView::Tab { active, .. } => active,
                NodeView::Tile { active, .. } => active,
                NodeView::Console(_) => 0,
            };
            assert(kids_of(self.kids, i)[active as int] == self.focus_step(i)->0);
        }
    }

    /// Cycling keeps a stack well formed.
    pub proof fn law_cycle_keeps_well_formed(self, dir: crate::hut::Direction)
        requires
            self.well_formed(),
        ensures
            self.innermost_cycled(dir).well_formed(),
    {
        let path = self.path(self.out().huts[self.out().current as int]);
        self.lemma_cycling_level(path, path.len() as int);
        let level = self.cycling_level(path, path.len() as int);
        if level > 0 {
            let id = path[level - 1];
            let s = self.node_cycled(id, dir);
            let n = kids_of(self.kids, id).len() as int;
            let active = match self.nodes[id] {
                NodeView::Tab { active, .. } => active,
                NodeView::Tile { active, .. } => active,
                NodeView::Console(_) => 0,
            };
            let next = crate::hut::stepped(n, active as int, dir);
            assert(0 <= next < n) by (nonlinear_arith)
                requires
                    n > 0,
                    next == (active + 1) % n || next == (active - 1) % n,
            ;
            assert(s.kids == self.kids && s.slots == self.slots);
            assert(s.filled());
            assert(s.linked());
            assert(s.unshared());
        }
    }

    pub proof fn lemma_cycling_level(self, path: Seq<NodeId>, n: int)
        requires
            0 <= n <= path.len(),
        ensures
            0 <= self.cycling_level(path, n) <= n,
            ({
                let l = self.cycling_level(path, n);
                l > 0 ==> self.nodes.contains_key(path[l - 1]) && !(self.nodes[path[l
                    - 1]] is Console) && kids_of(self.kids, path[l - 1]).len() >= 2
            }),
        decreases n,
    {
        if n > 0 {
            self.lemma_cycling_level(path, n - 1);
        }
    }
}

impl StackView {
    /// One more console that nothing refers to yet keeps the tree sound.
    proof fn lemma_with_console_sound(self, hut: HutView)
        requires
            self.sound(),
            self.next_id < u64::MAX,
        ensures
            self.with_node(NodeView::Console(hut)).sound(),
    {
        let s = self.with_node(NodeView::Console(hut));
        assert(!self.nodes.contains_key(self.fresh_id()));
        assert(s.linked());
        assert(s.unshared());
        assert(s.filled());
        assert(s.containers_only());
    }

    /// The tree with `wrapper`, whose children are `new_id` and `leaf`, put in
    /// the place of `leaf` is sound.
    proof fn lemma_wrapper_sound(
        self,
        t: StackView,
        new_id: NodeId,
        leaf: NodeId,
        wrapper: NodeId,
        node: NodeView,
        parent: Option<NodeId>,
        at: int,
        top: (int, int),
    )
        requires
            self.sound(),
            self.next_id < u64::MAX,
            wrapper == self.fresh_id(),
            self.nodes.contains_key(leaf),
            self.nodes.contains_key(new_id),
            new_id != leaf,
            self.nodes[new_id] is Console,
            forall|p: NodeId, j: int| !#[trigger] is_kid(self.kids, p, j, new_id),
            forall|i: int, j: int| !#[trigger] is_top(self.slots, i, j, new_id),
            node matches NodeView::Tab { active, .. } ==> active == 1,
            node matches NodeView::Tile { active, .. } ==> active == 1,
            !(node is Console),
            t.next_id == self.next_id + 1,
            t.focused == self.focused,
            t.slots.len() == self.slots.len(),
            match parent {
                Some(g) => {
                    &&& is_kid(self.kids, g, at, leaf)
                    &&& t.kids == self.kids.insert(wrapper, seq![new_id, leaf]).insert(
                        g,
                        self.kids[g].update(at, wrapper),
                    )
                    &&& t.slots == self.slots
                    &&& t.nodes.dom() == self.nodes.dom().insert(wrapper)
                    &&& t.nodes[wrapper] == node
                    &&& forall|id: NodeId| #[trigger]
                        self.nodes.contains_key(id) && id != g ==> t.nodes[id] == self.nodes[id]
                    &&& match (self.nodes[g], t.nodes[g]) {
                        (NodeView::Tab { active: a, .. }, NodeView::Tab { active: b, .. }) => a
                            == b,
                        (NodeView::Tile { active: a, .. }, NodeView::Tile { active: b, .. }) => a
                            == b,
                        _ => false,
                    }
                },
                None => {
                    &&& is_top(self.slots, top.0, top.1, leaf)
                    &&& t.kids == self.kids.insert(wrapper, seq![new_id, leaf])
                    &&& t.nodes == self.nodes.insert(wrapper, node)
                    &&& t.slots == self.slots.update(
                        top.0,
                        SlotView {
                            huts: self.slots[top.0].huts.update(top.1, wrapper),
                            ..self.slots[top.0]
                        },
                    )
                },
            },
        ensures
            t.sound(),
    {
        assert(!self.nodes.contains_key(wrapper));
        let list = seq![new_id, leaf];
        assert forall|p: NodeId, j: int, x: NodeId| #[trigger] is_kid(t.kids, p, j, x) implies (p
            == wrapper && (j == 0 && x == new_id || j == 1 && x == leaf)) || (parent == Some(p) && at == j && x == wrapper && p != wrapper) || (is_kid(self.kids, p, j, x)
            && x != leaf && x != wrapper && x != new_id && p != wrapper && !(parent == Some(p) && at == j)) by {
            if p == wrapper {
                if parent is Some {
                    assert(self.nodes.contains_key(parent->0));
                }
                assert(t.kids[p] == list);
            } else if parent == Some(p) && at == j {
            } else {
                assert(is_kid(self.kids, p, j, x));
                assert(self.nodes.contains_key(x));
                assert(!is_kid(self.kids, p, j, new_id));
            }
        }
        assert forall|i: int, j: int, x: NodeId| #[trigger] is_top(t.slots, i, j, x) implies (
        parent is None && (i, j) == top && x == wrapper) || (is_top(self.slots, i, j, x) && x
            != leaf && x != wrapper && x != new_id && !(parent is None && (i, j) == top)) by {
            if parent is None && (i, j) == top {
            } else {
                assert(is_top(self.slots, i, j, x));
                assert(self.nodes.contains_key(x));
                assert(!is_top(self.slots, i, j, new_id));
            }
        }
        assert(t.linked());
        assert(t.unshared());
        assert forall|id: NodeId| #[trigger] t.nodes.contains_key(id) implies match t.nodes[id] {
            NodeView::Console(_) => true,
            NodeView::Tab { active, .. } => t.kids.contains_key(id) && t.kids[id].len() >= 2
                && active < t.kids[id].len(),
            NodeView::Tile { active, .. } => t.kids.contains_key(id) && t.kids[id].len() >= 2
                && active < t.kids[id].len(),
        } by {
            if id == wrapper {
                if parent is Some {
                    assert(self.nodes.contains_key(parent->0));
                }
                assert(t.kids[id] == list);
            } else {
                assert(self.nodes.contains_key(id));
            }
        }
        assert(t.filled());
        assert forall|p: NodeId| #[trigger] t.kids.contains_key(p) implies t.nodes.contains_key(p)
            && !(t.nodes[p] is Console) by {
            if p != wrapper {
                assert(self.kids.contains_key(p));
                assert(self.nodes.contains_key(p));
            } else if parent is Some {
                assert(self.nodes.contains_key(parent->0));
            }
        }
        assert(t.numbered()) by {
            assert forall|id: NodeId| #[trigger] t.nodes.contains_key(id) implies id.0
                < t.next_id by {
                if id != wrapper {
                    assert(self.nodes.contains_key(id));
                }
            }
        }
        let rank = some_rank(self.kids);
        assert(ranked(self.kids, rank));
        let rank2 = |x: NodeId|
            if x == wrapper {
                2 * rank(leaf) + 1
            } else if x == new_id {
                0
            } else {
                2 * rank(x)
            };
        assert forall|p: NodeId, j: int| t.kids.contains_key(p) && 0 <= j < t.kids[p].len() implies rank2(
            #[trigger] t.kids[p][j],
        ) < rank2(p) by {
            let x = t.kids[p][j];
            assert(is_kid(t.kids, p, j, x));
            if p != wrapper {
                assert(p != new_id) by {
                    assert(t.nodes.contains_key(p) && !(t.nodes[p] is Console));
                    if parent is Some && parent->0 == new_id {
                        assert(self.nodes[parent->0] is Console);
                    }
                }
                let y = self.kids[p][j];
                assert(rank(self.kids[p][j]) < rank(p));
            }
        }
        assert(ranked(t.kids, rank2));
        assert(t.shaped());
    }

    /// Wrapping the focused leaf keeps a stack well formed, keeps every
    /// output's number of entries, and does not change which console has
    /// focus.
    pub proof fn law_wrap_keeps_well_formed(self, kind: WrapKind, hut: HutView)
        requires
            self.well_formed(),
            self.next_id + 2 <= u64::MAX,
        ensures
            self.wrapped(kind, hut).well_formed(),
            self.wrapped(kind, hut).slots.len() == self.slots.len(),
            self.wrapped(kind, hut).out().huts.len() == self.out().huts.len(),
            self.wrapped(kind, hut).out().current == self.out().current,
            forall|i: int|
                0 <= i < self.slots.len() && i != self.focused ==> #[trigger] self.wrapped(
                    kind,
                    hut,
                ).slots[i] == self.slots[i],
            self.wrapped(kind, hut).focused_console(
                self.wrapped(kind, hut).out().huts[self.out().current as int],
            ) == self.focused_console(self.out().huts[self.out().current as int]),
    {
        let new_id = self.fresh_id();
        assert(!self.nodes.contains_key(new_id));
        self.lemma_with_console_sound(hut);
        let s1 = self.with_node(NodeView::Console(hut));
        let o = s1.out();
        let f = self.focused as int;
        assert(self.slots[f].current < self.slots[f].huts.len());
        let top = o.huts[o.current as int];
        assert(is_top(s1.slots, f, o.current as int, top));
        s1.law_focus_lands_on_a_console(top);
        let path = s1.path(top);
        let leaf = path.last();
        let wrapper = s1.fresh_id();
        let node = match kind {
            WrapKind::Tab => NodeView::Tab { active: 1, chrome: Map::empty() },
            WrapKind::Tile(axis) => NodeView::Tile {
                axis,
                active: 1,
                fracs: Map::empty().insert(new_id, crate::graph_nodes::HALF_FRAC).insert(
                    leaf,
                    crate::graph_nodes::HALF_FRAC,
                ),
            },
        };
        assert forall|p: NodeId, j: int| !#[trigger] is_kid(s1.kids, p, j, new_id) by {
            if is_kid(self.kids, p, j, new_id) {
                assert(self.nodes.contains_key(new_id));
            }
        }
        assert forall|i: int, j: int| !#[trigger] is_top(s1.slots, i, j, new_id) by {
            if is_top(self.slots, i, j, new_id) {
                assert(self.nodes.contains_key(new_id));
            }
        }
        let t = self.wrapped(kind, hut);
        if path.len() == 1 {
            assert(leaf == top);
            assert(leaf != new_id);
            s1.lemma_wrapper_sound(
                t,
                new_id,
                leaf,
                wrapper,
                node,
                None,
                0,
                (f, o.current as int),
            );
            assert(t.kids[wrapper] == seq![new_id, leaf]);
            t.lemma_chain_last(seq![wrapper, leaf]);
        } else {
            let g = path[path.len() - 2];
            assert(s1.focus_step(path[path.len() - 2]) == Some(path[path.len() - 2 + 1]));
            assert(s1.nodes.contains_key(g));
            s1.lemma_steps_to_children();
            let list = kids_of(s1.kids, g);
            list.index_of_first_ensures(leaf);
            let at = list.index_of_first(leaf)->0;
            assert(is_kid(s1.kids, g, at, leaf));
            assert(leaf != new_id);
            assert(g != wrapper);
            let s2 = s1.with_node(node);
            let s3 = StackView { kids: s2.kids.insert(wrapper, seq![new_id, leaf]), ..s2 };
            assert(kids_of(s3.kids, g) == list);
            assert(t == s3.child_swapped(g, leaf, wrapper));
            assert(t.nodes.dom() =~= s1.nodes.dom().insert(wrapper));
            s1.lemma_wrapper_sound(
                t,
                new_id,
                leaf,
                wrapper,
                node,
                Some(g),
                at,
                (0, 0),
            );
            let m = path.len() - 1;
            let chain = path.take(m) + seq![wrapper, leaf];
            assert forall|j: int| 0 <= j < chain.len() - 1 implies t.focus_step(
                #[trigger] chain[j],
            ) == Some(chain[j + 1]) by {
                if j < m {
                    assert(s1.focus_step(path[j]) == Some(path[j + 1]));
                    assert(s1.nodes.contains_key(path[j]));
                    assert(chain[j] == path[j]);
                    if j < m - 1 {
                        if path[j] == g {
                            assert(path[j + 1] == leaf);
                            assert(s1.focus_step(path[j + 1]) == Some(path[j + 1 + 1]));
                        }
                        assert(t.kids.contains_key(path[j]) ==> s1.kids.contains_key(path[j]));
                        assert(chain[j + 1] == path[j + 1]);
                    } else {
                        let active = match s1.nodes[g] {
                            NodeView::Tab { active, .. } => active as int,
                            NodeView::Tile { active, .. } => active as int,
                            NodeView::Console(_) => 0,
                        };
                        assert(is_kid(s1.kids, g, active, leaf));
                        assert(active == at);
                        assert(t.kids[g] == list.update(at, wrapper));
                        assert(chain[j + 1] == wrapper);
                    }
                } else {
                    assert(t.kids[wrapper] == seq![new_id, leaf]);
                    assert(chain[j] == wrapper && chain[j + 1] == leaf);
                }
            }
            assert(chain[0] == top);
            assert(chain.last() == leaf);
            t.lemma_chain_last(chain);
        }
        assert(self.path(top) == s1.path(top)) by {
            let a = |i: NodeId| self.focus_step(i);
            let b = |i: NodeId| s1.focus_step(i);
            assert forall|i: NodeId| #[trigger] a(i) == b(i) by {}
            assert(a =~= b);
        }
        assert(self.nodes.contains_key(leaf)) by {
            self.law_focus_lands_on_a_console(top);
        }
        assert(t.nodes[leaf] == self.nodes[leaf]);
        assert forall|i: int| 0 <= i < t.slots.len() implies (#[trigger] t.slots[i]).current
            < t.slots[i].huts.len() && (t.slots[i].preview is Some ==> t.slots[i].preview->0
            < t.slots[i].huts.len()) by {
            assert(self.slots[i].current < self.slots[i].huts.len());
        }
    }
}

impl StackView {
    /// Focus followed along a chain comes to rest where the chain ends.
    proof fn lemma_chain_last(self, chain: Seq<NodeId>)
        requires
            acyclic(self.kids),
            chain.len() > 0,
            forall|j: int|
                0 <= j < chain.len() - 1 ==> self.focus_step(#[trigger] chain[j]) == Some(
                    chain[j + 1],
                ),
            self.focus_step(chain.last()) is None,
        ensures
            self.path(chain[0]).last() == chain.last(),
        decreases chain.len(),
    {
        let step = |i: NodeId| self.focus_step(i);
        self.lemma_steps_to_children();
        crate::tree::lemma_step_ends(self.kids, step, chain[0]);
        crate::graph::law_path_unfolds(step, chain[0]);
        if chain.len() > 1 {
            let rest = chain.drop_first();
            assert forall|j: int| 0 <= j < rest.len() - 1 implies self.focus_step(
                #[trigger] rest[j],
            ) == Some(rest[j + 1]) by {
                assert(self.focus_step(chain[j + 1]) == Some(chain[j + 1 + 1]));
            }
            self.lemma_chain_last(rest);
            assert(self.focus_step(chain[0]) == Some(chain[0int + 1]));
            crate::tree::lemma_step_ends(self.kids, step, rest[0]);
            crate::graph::law_path_unfolds(step, rest[0]);
        }
    }
}

impl StackView {
    /// A stack of one output that shows one console is well formed.
    pub proof fn law_first_stack_is_well_formed(self, hut: HutView)
        requires
            self.nodes == Map::<NodeId, NodeView>::empty().insert(
                NodeId(0),
                NodeView::Console(hut),
            ),
            self.kids == Map::<NodeId, Seq<NodeId>>::empty(),
            self.next_id == 1,
            self.slots.len() == 1,
            self.slots[0].huts == seq![NodeId(0)],
            self.slots[0].current == 0,
            self.slots[0].preview is None,
            self.focused == 0,
        ensures
            self.well_formed(),
    {
        assert(ranked(self.kids, |x: NodeId| 0nat));
        assert forall|i: int, j: int, x: NodeId| #[trigger] is_top(self.slots, i, j, x) implies i
            == 0 && j == 0 && x == NodeId(0) by {}
        assert(self.linked());
        assert(self.unshared());
    }

    /// One more output, showing one fresh console, keeps a stack well formed
    /// and does not move focus.
    pub proof fn law_add_output_keeps_well_formed(self, slot: SlotView, hut: HutView)
        requires
            self.well_formed(),
            self.next_id < u64::MAX,
            slot.huts == seq![self.fresh_id()],
            slot.current == 0,
            slot.preview is None,
        ensures
            ({
                let s = StackView {
                    slots: self.slots.push(slot),
                    ..self.with_node(NodeView::Console(hut))
                };
                s.well_formed() && s.out() == self.out()
            }),
    {
        let s = StackView { slots: self.slots.push(slot), ..self.with_node(NodeView::Console(hut)) };
        let f = self.fresh_id();
        assert(!self.nodes.contains_key(f));
        assert forall|p: NodeId, j: int, x: NodeId| #[trigger] is_kid(s.kids, p, j, x) implies is_kid(
            self.kids,
            p,
            j,
            x,
        ) && x != f by {
            assert(is_kid(self.kids, p, j, x));
        }
        assert forall|a: int, b: int, x: NodeId| #[trigger] is_top(s.slots, a, b, x) implies (
        is_top(self.slots, a, b, x) && x != f) || (a == self.slots.len() && b == 0 && x == f) by {
            if a < self.slots.len() {
                assert(is_top(self.slots, a, b, x));
                assert(self.nodes.contains_key(x));
            }
        }
        assert(s.linked());
        assert(s.unshared());
        assert(s.filled());
        assert(s.containers_only());
        assert(s.numbered());
        assert(s.indexed()) by {
            assert forall|i: int| 0 <= i < s.slots.len() implies (#[trigger] s.slots[i]).current
                < s.slots[i].huts.len() && (s.slots[i].preview is Some ==> s.slots[i].preview->0
                < s.slots[i].huts.len()) by {
                if i < self.slots.len() {
                    assert(s.slots[i] == self.slots[i]);
                }
            }
        }
    }

    /// A committed entry is at the front, is the current one, and counts as
    /// used.
    pub proof fn law_committed_entry_is_used_and_in_front(self)
        requires
            self.well_formed(),
            self.out().preview is Some,
        ensures
            self.committed().out().current == 0,
            self.committed().out().huts[0] == self.out().huts[self.out().preview->0 as int],
            self.committed().used(self.committed().out().huts[0]),
    {
    }

    /// Cycling a node forwards and then backwards, or the other way round,
    /// leaves everything as it was.
    pub proof fn law_cycle_and_back(self, id: NodeId)
        requires
            self.sound(),
            self.nodes.contains_key(id),
            kids_of(self.kids, id).len() <= usize::MAX,
        ensures
            self.node_cycled(id, crate::hut::Direction::Next).node_cycled(
                id,
                crate::hut::Direction::Prev,
            ) == self,
            self.node_cycled(id, crate::hut::Direction::Prev).node_cycled(
                id,
                crate::hut::Direction::Next,
            ) == self,
    {
        let n = kids_of(self.kids, id).len() as int;
        let active = match self.nodes[id] {
            NodeView::Tab { active, .. } => active as int,
            NodeView::Tile { active, .. } => active as int,
            NodeView::Console(_) => 0,
        };
        if !(self.nodes[id] is Console) {
            crate::hut::law_step_and_back(n, active);
            let up = crate::hut::stepped(n, active, crate::hut::Direction::Next);
            let down = crate::hut::stepped(n, active, crate::hut::Direction::Prev);
            assert(0 <= up < n && 0 <= down < n) by (nonlinear_arith)
                requires
                    n > 0,
                    up == (active + 1) % n,
                    down == (active - 1) % n,
            ;
        }
        assert(self.node_cycled(id, crate::hut::Direction::Next).node_cycled(
            id,
            crate::hut::Direction::Prev,
        ).nodes =~= self.nodes);
        assert(self.node_cycled(id, crate::hut::Direction::Prev).node_cycled(
            id,
            crate::hut::Direction::Next,
        ).nodes =~= self.nodes);
    }

    /// Putting another node in the place of a Tile pane keeps the share of
    /// every pane, position by position.
    pub proof fn law_swap_keeps_pane_shares(
        self,
        parent: NodeId,
        old_id: NodeId,
        new_id: NodeId,
        i: int,
    )
        requires
            self.sound(),
            self.nodes.contains_key(parent),
            self.nodes[parent] is Tile,
            self.kids[parent].contains(old_id),
            !self.kids[parent].contains(new_id),
            !self.nodes[parent]->fracs.contains_key(new_id),
            0 <= i < self.kids[parent].len(),
        ensures
            ({
                let t = self.child_swapped(parent, old_id, new_id);
                &&& t.nodes[parent] is Tile
                &&& t.kids[parent].len() == self.kids[parent].len()
                &&& crate::graph_nodes::frac_of(t.nodes[parent]->fracs, t.kids[parent][i])
                    == crate::graph_nodes::frac_of(
                    self.nodes[parent]->fracs,
                    self.kids[parent][i],
                )
            }),
    {
        let list = self.kids[parent];
        list.index_of_first_ensures(old_id);
        let at = list.index_of_first(old_id)->0;
        assert(is_kid(self.kids, parent, at, old_id));
        assert(is_kid(self.kids, parent, i, list[i]));
        assert(list.contains(list[i]));
        if i != at {
            assert(list[i] != old_id);
        }
    }
}

pub proof fn lemma_without_absent(s: Seq<NodeId>, id: NodeId)
    requires
        !s.contains(id),
    ensures
        without(s, id) == s,
    decreases s.len(),
{
    reveal(Seq::filter);
    if s.len() > 0 {
        let t = s.drop_last();
        assert forall|i: int| 0 <= i < t.len() implies t[i] != id by {
            assert(s.contains(s[i]));
        }
        assert(s.contains(s.last()));
        lemma_without_absent(t, id);
        assert(without(s, id) =~= s);
    }
}

impl StackView {
    /// Going through one output's entries leaves every other output alone.
    pub proof fn law_stepping_stays_on_the_focused_output(
        self,
        pos: int,
        protect: Option<usize>,
        hut: HutView,
        i: int,
    )
        requires
            self.focused < self.slots.len(),
            0 <= i < self.slots.len(),
            i != self.focused,
        ensures
            ({
                let (s, p) = self.left_forward(pos, protect);
                &&& s.at(p).slots[i] == self.slots[i]
                &&& s.previewing(p).slots[i] == self.slots[i]
                &&& s.spawned(s.focused as int, hut).at(p).slots[i] == self.slots[i]
                &&& s.spawned(s.focused as int, hut).previewing(p).slots[i] == self.slots[i]
            }),
            ({
                let (s, p) = self.backward(pos, protect);
                &&& s.at(p).slots[i] == self.slots[i]
                &&& s.previewing(p).slots[i] == self.slots[i]
            }),
            self.committed().slots[i] == self.slots[i],
    {
    }

    /// Passing over an entry that was used, or one made of several consoles,
    /// never discards it, in either direction.
    pub proof fn law_used_entry_is_never_discarded(self, pos: int, protect: Option<usize>)
        requires
            0 <= pos < self.out().huts.len(),
            self.nodes.contains_key(self.out().huts[pos]),
            self.nodes[self.out().huts[pos]] matches NodeView::Console(hut) ==> hut.touched,
        ensures
            self.left_forward(pos, protect).0 == self,
            self.backward(pos, protect).0 == self,
    {
    }

    /// Wrapping a leaf replaces just that leaf: every other node is what it
    /// was, and where the leaf was a pane or a tab of another node, the other
    /// children of that node stay in their places, with their shares.
    pub proof fn law_wrap_replaces_just_the_leaf(self, kind: WrapKind, hut: HutView)
        requires
            self.well_formed(),
            self.next_id + 2 <= u64::MAX,
        ensures
            ({
                let t = self.wrapped(kind, hut);
                let path = self.path(self.out().huts[self.out().current as int]);
                let leaf = path.last();
                let parent = path[path.len() - 2];
                &&& forall|x: NodeId| #[trigger]
                    self.nodes.contains_key(x) && (path.len() == 1 || x != parent) ==> t.nodes[x]
                        == self.nodes[x] && kids_of(t.kids, x) == kids_of(self.kids, x)
                &&& path.len() > 1 ==> {
                    let was = kids_of(self.kids, parent);
                    let now = kids_of(t.kids, parent);
                    &&& now.len() == was.len()
                    &&& forall|j: int|
                        0 <= j < was.len() && #[trigger] was[j] != leaf ==> now[j] == was[j]
                    &&& t.nodes[parent] == node_child_swapped(
                        self.nodes[parent],
                        leaf,
                        NodeId((self.next_id + 1) as u64),
                    )
                }
            }),
    {
        let s1 = self.with_node(NodeView::Console(hut));
        let f = self.focused as int;
        let o = self.out();
        assert(self.slots[f].current < self.slots[f].huts.len());
        let top = o.huts[o.current as int];
        assert(is_top(self.slots, f, o.current as int, top));
        self.law_focus_lands_on_a_console(top);
        assert(!self.nodes.contains_key(self.fresh_id()));
        assert(self.path(top) == s1.path(top)) by {
            let a = |i: NodeId| self.focus_step(i);
            let b = |i: NodeId| s1.focus_step(i);
            assert forall|i: NodeId| #[trigger] a(i) == b(i) by {}
            assert(a =~= b);
        }
        assert(!self.nodes.contains_key(s1.fresh_id()));
        let path = self.path(top);
        if path.len() > 1 {
            let parent = path[path.len() - 2];
            assert(self.focus_step(path[path.len() - 2]) == Some(path[path.len() - 2 + 1]));
            self.lemma_steps_to_children();
            kids_of(self.kids, parent).index_of_first_ensures(path.last());
        }
    }

    /// Whatever happens inside a console, the stack around it stays well
    /// formed, and focus goes where it went.
    pub proof fn law_changed_console_keeps_well_formed(self, id: NodeId, hut: HutView)
        requires
            self.nodes.contains_key(id),
            self.nodes[id] is Console,
        ensures
            self.well_formed() ==> self.with_console(id, hut).well_formed(),
            forall|x: NodeId| #[trigger] self.with_console(id, hut).path(x) == self.path(x),
            self.with_console(id, hut).all_ids() == self.all_ids(),
    {
        let s = self.with_console(id, hut);
        assert forall|x: NodeId| #[trigger] s.path(x) == self.path(x) by {
            assert forall|i: NodeId| s.focus_step(i) == self.focus_step(i) by {}
            assert((|i: NodeId| s.focus_step(i)) =~= (|i: NodeId| self.focus_step(i)));
        }
        if self.well_formed() {
            assert(s.linked());
            assert(s.unshared());
            assert(s.filled());
            assert(s.containers_only());
            assert(s.numbered());
            assert(s.shaped());
        }
    }
}

} // verus!
