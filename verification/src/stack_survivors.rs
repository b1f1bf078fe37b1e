//! What stays when a console's shell exits: which entry an output shows then,
//! which child a Tab or Tile node shows, and what takes the place of a node
//! that is left with one child.
use vstd::prelude::*;

use crate::console_hut::HutView;
use crate::graph::{without, NodeId};
use crate::graph_nodes::{frac_of, NodeView};
use crate::stack_exit::{lemma_first_console, lemma_first_parent, lemma_first_slot};
use crate::stack_laws::{is_kid, is_top, lemma_without_absent};
use crate::stack_model::{first_console, first_parent, first_slot_with, replaced, StackView};
use crate::tree::{kids_of, ranked, some_rank};

verus! {

/// Where an index points once the entry at `gone` has left a list of `len`
/// entries: still at the entry it pointed at, or, where that is the one that
/// left, at the one that followed it, or at the last one if none did.
pub open spec fn follows(was: int, now: int, gone: int, len: int) -> bool {
    &&& was < gone ==> now == was
    &&& was > gone ==> now == was - 1
    &&& was == gone && gone + 1 < len ==> now == gone
    &&& was == gone && gone + 1 == len && len > 1 ==> now == gone - 1
}

impl StackView {
    /// Where a node is an output's entry, that is the output and the entry
    /// that are found for it.
    proof fn lemma_top_found(self, a: int, b: int, id: NodeId)
        requires
            self.unshared(),
            is_top(self.slots, a, b, id),
        ensures
            first_slot_with(self.slots, id) == a,
            self.slots[a].huts.index_of_first(id) == Some(b),
    {
        lemma_first_slot(self.slots, id);
        let i = first_slot_with(self.slots, id);
        let huts = self.slots[i].huts;
        let j = choose|j: int| 0 <= j < huts.len() && huts[j] == id;
        assert(is_top(self.slots, i, j, id));
        huts.index_of_first_ensures(id);
        let first = huts.index_of_first(id)->0;
        assert(is_top(self.slots, i, first, id));
    }

    proof fn lemma_top_leaves_kids(self, a: int, b: int, id: NodeId)
        requires
            self.sound(),
            is_top(self.slots, a, b, id),
            self.nodes.contains_key(id),
            self.nodes[id] is Console,
        ensures
            self.without_node(id).kids == self.kids,
    {
        assert forall|p: NodeId| #[trigger] self.kids.contains_key(p) implies p != id && without(
            self.kids[p],
            id,
        ) == self.kids[p] by {
            if self.kids[p].contains(id) {
                let j = choose|j: int| 0 <= j < self.kids[p].len() && self.kids[p][j] == id;
                assert(is_kid(self.kids, p, j, id));
            }
            lemma_without_absent(self.kids[p], id);
        }
        assert(self.without_node(id).kids =~= self.kids);
    }

    /// When the console of a top-level entry exits, just that entry leaves its
    /// output's list. The output goes on showing the entry that it showed, and
    /// previewing the one that it previewed; where that is the one that left,
    /// the next one takes its place, or the last one. An output left with
    /// nothing shows the fresh console. No other output, and no other node,
    /// changes.
    pub proof fn law_exit_of_an_entry_keeps_what_is_shown(
        self,
        hut: u64,
        fresh: HutView,
        a: int,
        b: int,
    )
        requires
            self.well_formed(),
            self.slots[a].huts.len() <= usize::MAX,
            first_console(self.nodes, self.all_ids(), hut) is Some,
            is_top(self.slots, a, b, first_console(self.nodes, self.all_ids(), hut)->0),
            self.next_id < u64::MAX,
        ensures
            ({
                let id = first_console(self.nodes, self.all_ids(), hut)->0;
                let t = self.exited(hut, fresh);
                let was = self.slots[a];
                let now = t.slots[a];
                let n = was.huts.len();
                &&& self.exit_output(hut, id) == a
                &&& self.exit_spawns(hut) <==> n == 1
                &&& t.slots.len() == self.slots.len() && t.focused == self.focused
                &&& t.kids == self.kids
                &&& forall|i: int|
                    0 <= i < self.slots.len() && i != a ==> t.slots[i] == #[trigger] self.slots[i]
                &&& now.output == was.output && now.position == was.position && now.panel_id
                    == was.panel_id
                &&& n > 1 ==> {
                    &&& now.huts == was.huts.remove(b)
                    &&& follows(was.current as int, now.current as int, b, n as int)
                    &&& was.current != b ==> now.huts[now.current as int]
                        == was.huts[was.current as int]
                    &&& now.preview is Some <==> was.preview is Some
                    &&& was.preview is Some ==> follows(
                        was.preview->0 as int,
                        now.preview->0 as int,
                        b,
                        n as int,
                    )
                    &&& was.preview is Some && was.preview->0 != b
                        ==> now.huts[now.preview->0 as int] == was.huts[was.preview->0 as int]
                    &&& forall|x: NodeId| #[trigger]
                        t.nodes.contains_key(x) <==> self.nodes.contains_key(x) && x != id
                }
                &&& n == 1 ==> {
                    &&& now.huts.len() == 1 && now.current == 0
                    &&& !self.nodes.contains_key(now.huts[0])
                    &&& t.nodes.contains_key(now.huts[0])
                    &&& t.nodes[now.huts[0]] == NodeView::Console(fresh)
                    &&& forall|x: NodeId| #[trigger]
                        t.nodes.contains_key(x) <==> self.nodes.contains_key(x) && x != id || x
                            == now.huts[0]
                }
                &&& forall|x: NodeId| #[trigger]
                    self.nodes.contains_key(x) && x != id ==> t.nodes[x] == self.nodes[x]
            }),
    {
        let id = first_console(self.nodes, self.all_ids(), hut)->0;
        lemma_first_console(self.nodes, self.all_ids(), hut);
        self.lemma_top_found(a, b, id);
        self.lemma_top_leaves_kids(a, b, id);
        self.lemma_without_console_keeps(id);
        let s = self.without_console(id);
        let was = self.slots[a];
        assert(was.current < was.huts.len());
        assert(s.slots[a].huts == was.huts.remove(b));
        assert(!self.nodes.contains_key(self.fresh_id()));
        let t = self.exited(hut, fresh);
        if was.huts.len() == 1 {
            assert(was.huts.remove(b) =~= Seq::empty());
            assert(s.slots[a].huts.push(s.fresh_id()) =~= seq![s.fresh_id()]);
            assert(t.slots[a].huts == seq![s.fresh_id()]);
        } else {
            assert(t.slots[a].huts == was.huts.remove(b));
        }
    }

    /// What the tree is once a console that is a child of `g` has left it.
    proof fn lemma_nested_parent(self, hut: u64, g: NodeId, j: int)
        requires
            self.sound(),
            first_console(self.nodes, self.all_ids(), hut) is Some,
            is_kid(self.kids, g, j, first_console(self.nodes, self.all_ids(), hut)->0),
        ensures
            ({
                let id = first_console(self.nodes, self.all_ids(), hut)->0;
                &&& first_slot_with(self.slots, id) == self.slots.len()
                &&& first_parent(self.kids, self.all_ids(), id) == Some(g)
                &&& self.kids[g].index_of_first(id) == Some(j)
                &&& self.all_ids().contains(g)
                &&& self.nodes.contains_key(g)
                &&& self.nodes.contains_key(id)
                &&& self.nodes[id] is Console
                &&& g != id
            }),
    {
        let id = first_console(self.nodes, self.all_ids(), hut)->0;
        lemma_first_console(self.nodes, self.all_ids(), hut);
        lemma_first_slot(self.slots, id);
        let i = first_slot_with(self.slots, id);
        if i < self.slots.len() {
            let huts = self.slots[i].huts;
            let l = choose|l: int| 0 <= l < huts.len() && huts[l] == id;
            assert(is_top(self.slots, i, l, id));
            assert(false);
        }
        let (p0, j0) = self.lemma_reached_parent(id);
        lemma_first_parent(self.kids, self.all_ids(), id);
        assert(kids_of(self.kids, p0)[j0] == id);
        assert(kids_of(self.kids, p0).contains(id));
        let parent = first_parent(self.kids, self.all_ids(), id)->0;
        let list = self.kids[parent];
        let l = choose|l: int| 0 <= l < list.len() && list[l] == id;
        assert(is_kid(self.kids, parent, l, id));
        list.index_of_first_ensures(id);
        assert(is_kid(self.kids, parent, list.index_of_first(id)->0, id));
        assert(self.kids.contains_key(g));
    }

    /// When the console of one of three children or more exits, just that
    /// child leaves. The node goes on showing the child that it showed; where
    /// that is the one that left, the next one takes its place, or the last
    /// one. The other panes keep their shares. No output's list and no other
    /// node changes.
    #[verifier::spinoff_prover]
    #[verifier::rlimit(80)]
    pub proof fn law_exit_of_a_child_keeps_what_is_shown(
        self,
        hut: u64,
        fresh: HutView,
        g: NodeId,
        j: int,
    )
        requires
            self.well_formed(),
            first_console(self.nodes, self.all_ids(), hut) is Some,
            is_kid(self.kids, g, j, first_console(self.nodes, self.all_ids(), hut)->0),
            2 < self.kids[g].len() <= usize::MAX,
        ensures
            ({
                let id = first_console(self.nodes, self.all_ids(), hut)->0;
                let t = self.exited(hut, fresh);
                let n = self.kids[g].len() as int;
                &&& !self.exit_spawns(hut)
                &&& t.slots == self.slots && t.focused == self.focused
                &&& t.kids.dom() == self.kids.dom()
                &&& t.kids[g] == self.kids[g].remove(j)
                &&& forall|p: NodeId| #[trigger]
                    self.kids.contains_key(p) && p != g ==> t.kids[p] == self.kids[p]
                &&& follows(self.active_of(g), t.active_of(g), j, n)
                &&& self.active_of(g) != j ==> t.focus_step(g) == self.focus_step(g)
                &&& match (self.nodes[g], t.nodes[g]) {
                    (NodeView::Tab { chrome: c, .. }, NodeView::Tab { chrome: d, .. }) => {
                        &&& !d.contains_key(id)
                        &&& forall|x: NodeId|
                            x != id ==> (#[trigger] d.contains_key(x) <==> c.contains_key(x)) && d[x]
                                == c[x]
                    },
                    (
                        NodeView::Tile { axis: u, fracs: f, .. },
                        NodeView::Tile { axis: v, fracs: e, .. },
                    ) => u == v && forall|x: NodeId|
                        x != id ==> #[trigger] frac_of(e, x) == frac_of(f, x),
                    _ => false,
                }
                &&& forall|x: NodeId| #[trigger]
                    t.nodes.contains_key(x) <==> self.nodes.contains_key(x) && x != id
                &&& forall|x: NodeId| #[trigger]
                    self.nodes.contains_key(x) && x != id && x != g ==> t.nodes[x] == self.nodes[x]
            }),
    {
        let id = first_console(self.nodes, self.all_ids(), hut)->0;
        self.lemma_nested_parent(hut, g, j);
        self.lemma_without_console_keeps(id);
        self.lemma_output_of_bounds(hut, 0);
        let list = self.kids[g];
        let rest = list.remove(j);
        let c = self.child_removed(id);
        assert(c.kids == self.kids.insert(g, rest));
        let s = self.without_console(id);
        assert forall|p: NodeId| #[trigger] c.kids.contains_key(p) implies without(c.kids[p], id)
            == c.kids[p] && p != id by {
            if c.kids[p].contains(id) {
                let l = choose|l: int| 0 <= l < c.kids[p].len() && c.kids[p][l] == id;
                assert(is_kid(
                    self.kids,
                    p,
                    if p == g && l >= j {
                        l + 1
                    } else {
                        l
                    },
                    id,
                ));
            }
            lemma_without_absent(c.kids[p], id);
            assert(self.kids.contains_key(p));
        }
        assert(s.kids =~= c.kids);
        assert(s.kids.dom() =~= self.kids.dom());
        assert(s.slots == self.slots);
        let i = self.exit_output(hut, id);
        assert(0 <= i < self.slots.len());
        assert(self.slots[i].current < self.slots[i].huts.len());
        let t = self.exited(hut, fresh);
        assert(t.slots =~= self.slots);
        assert(!(self.nodes[g] is Console));
        assert(self.active_of(g) < list.len());
        assert(t.kids == s.kids && t.nodes == s.nodes);
        assert(t.nodes == c.nodes.remove(id));
        if self.active_of(g) != j {
            assert(t.kids[g][t.active_of(g)] == list[self.active_of(g)]);
        }
    }

    /// When one of two children exits, their node goes too, and the other
    /// child takes the node's own place: at the same position of the output's
    /// list or of the parent's, with the share that the node had there. Every
    /// output and every other node goes on showing what it showed, with that
    /// child where the node was.
    pub proof fn law_last_child_takes_its_parents_place(
        self,
        hut: u64,
        fresh: HutView,
        g: NodeId,
        j: int,
    )
        requires
            self.well_formed(),
            first_console(self.nodes, self.all_ids(), hut) is Some,
            is_kid(self.kids, g, j, first_console(self.nodes, self.all_ids(), hut)->0),
            self.kids[g].len() == 2,
        ensures
            ({
                let id = first_console(self.nodes, self.all_ids(), hut)->0;
                let other = self.kids[g][1 - j];
                let t = self.exited(hut, fresh);
                &&& !self.exit_spawns(hut)
                &&& t.slots.len() == self.slots.len() && t.focused == self.focused
                &&& forall|x: NodeId| #[trigger]
                    t.nodes.contains_key(x) <==> self.nodes.contains_key(x) && x != id && x != g
                &&& forall|i: int|
                    0 <= i < self.slots.len() ==> {
                        let was = #[trigger] self.slots[i];
                        let now = t.slots[i];
                        &&& now.current == was.current && now.preview == was.preview
                        &&& now.output == was.output && now.position == was.position
                            && now.panel_id == was.panel_id
                        &&& now.huts.len() == was.huts.len()
                        &&& forall|l: int|
                            0 <= l < was.huts.len() ==> #[trigger] now.huts[l] == if was.huts[l]
                                == g {
                                other
                            } else {
                                was.huts[l]
                            }
                    }
                &&& forall|p: NodeId| #[trigger]
                    t.kids.contains_key(p) <==> self.kids.contains_key(p) && p != g
                &&& forall|p: NodeId| #[trigger]
                    t.kids.contains_key(p) ==> t.kids[p].len() == self.kids[p].len() && forall|l: int|
                        0 <= l < self.kids[p].len() ==> #[trigger] t.kids[p][l] == if self.kids[p][l]
                            == g {
                            other
                        } else {
                            self.kids[p][l]
                        }
                &&& forall|x: NodeId| #[trigger]
                    t.nodes.contains_key(x) ==> {
                        &&& t.active_of(x) == self.active_of(x)
                        &&& match (self.nodes[x], t.nodes[x]) {
                            (NodeView::Console(h), NodeView::Console(k)) => h == k,
                            (NodeView::Tab { .. }, NodeView::Tab { .. }) => true,
                            (
                                NodeView::Tile { axis: u, fracs: f, .. },
                                NodeView::Tile { axis: v, fracs: e, .. },
                            ) => u == v && forall|l: int|
                                0 <= l < self.kids[x].len() && !f.contains_key(other)
                                    ==> frac_of(e, #[trigger] t.kids[x][l]) == frac_of(
                                    f,
                                    self.kids[x][l],
                                ),
                            _ => false,
                        }
                    }
            }),
    {
        let id = first_console(self.nodes, self.all_ids(), hut)->0;
        self.lemma_nested_parent(hut, g, j);
        self.lemma_without_console_keeps(id);
        self.lemma_output_of_bounds(hut, 0);
        let list = self.kids[g];
        let other = list[1 - j];
        let rest = list.remove(j);
        assert(rest =~= seq![other]);
        let rank = some_rank(self.kids);
        assert(ranked(self.kids, rank));
        assert(is_kid(self.kids, g, 1 - j, other));
        assert(rank(self.kids[g][1 - j]) < rank(g));
        assert(rank(self.kids[g][j]) < rank(g));
        assert(other != g);
        assert(other != id);
        let s = self.tops_swapped(g, other);
        let r = self.repointed(g, other);
        let c = self.child_removed(id);
        assert(c == r.without_node(g));
        let w = self.without_console(id);
        assert(w == c.without_node(id));
        let is_root = exists|i: int, l: int| is_top(self.slots, i, l, g);
        if is_root {
            let (i0, j0) = choose|i: int, l: int| is_top(self.slots, i, l, g);
            assert forall|p: NodeId, l: int| !#[trigger] is_kid(s.kids, p, l, g) by {
                if is_kid(self.kids, p, l, g) {
                    assert(!is_top(self.slots, i0, j0, g));
                }
            }
            s.lemma_swap_absent(s.all_ids(), g, other);
            assert(r == s);
        } else {
            assert(s.slots =~= self.slots) by {
                assert forall|i: int| 0 <= i < self.slots.len() implies s.slots[i]
                    == #[trigger] self.slots[i] by {
                    let huts = self.slots[i].huts;
                    assert forall|l: int| 0 <= l < huts.len() implies #[trigger] replaced(
                        huts,
                        g,
                        other,
                    )[l] == huts[l] by {
                        assert(is_top(self.slots, i, l, huts[l]));
                    }
                    assert(replaced(huts, g, other) =~= huts);
                }
            }
            assert(s == self);
            let (h, hj) = self.lemma_reached_parent(g);
            self.lemma_swap_unique(self.all_ids(), h, hj, g, other);
            assert(r == self.child_swapped(h, g, other));
            let hlist = self.kids[h];
            hlist.index_of_first_ensures(g);
            assert(hlist.contains(g));
            assert(is_kid(self.kids, h, hlist.index_of_first(g)->0, g));
        }
        assert forall|p: NodeId| #[trigger] self.kids.contains_key(p) implies r.kids.contains_key(p)
            && r.kids[p].len() == self.kids[p].len() && forall|l: int|
            0 <= l < self.kids[p].len() ==> #[trigger] r.kids[p][l] == if self.kids[p][l] == g {
                other
            } else {
                self.kids[p][l]
            } by {
            assert forall|l: int| 0 <= l < self.kids[p].len() implies #[trigger] r.kids[p][l]
                == if self.kids[p][l] == g {
                other
            } else {
                self.kids[p][l]
            } by {
                assert(is_kid(self.kids, p, l, self.kids[p][l]));
            }
        }
        assert(r.kids.dom() =~= self.kids.dom());
        assert forall|p: NodeId| #[trigger] r.kids.contains_key(p) implies without(r.kids[p], g)
            == r.kids[p] by {
            if r.kids[p].contains(g) {
                let l = choose|l: int| 0 <= l < r.kids[p].len() && r.kids[p][l] == g;
                assert(self.kids.contains_key(p));
                assert(r.kids[p][l] == if self.kids[p][l] == g {
                    other
                } else {
                    self.kids[p][l]
                });
            }
            lemma_without_absent(r.kids[p], g);
        }
        assert(c.kids =~= r.kids.remove(g));
        assert forall|p: NodeId| #[trigger] c.kids.contains_key(p) implies without(c.kids[p], id)
            == c.kids[p] && p != id by {
            assert(self.kids.contains_key(p));
            if c.kids[p].contains(id) {
                let l = choose|l: int| 0 <= l < c.kids[p].len() && c.kids[p][l] == id;
                assert(r.kids[p][l] == id);
                assert(is_kid(self.kids, p, l, id));
            }
            lemma_without_absent(c.kids[p], id);
        }
        assert(w.kids =~= r.kids.remove(g));
        let i = self.exit_output(hut, id);
        assert(0 <= i < self.slots.len());
        assert(self.slots[i].current < self.slots[i].huts.len());
        let t = self.exited(hut, fresh);
        assert(w.slots == s.slots);
        assert(t.slots =~= s.slots);
        assert(t.kids == w.kids && t.nodes == w.nodes);
        assert forall|x: NodeId| #[trigger] t.nodes.contains_key(x) implies t.active_of(x)
            == self.active_of(x) && match (self.nodes[x], t.nodes[x]) {
            (NodeView::Console(h), NodeView::Console(k)) => h == k,
            (NodeView::Tab { .. }, NodeView::Tab { .. }) => true,
            (
                NodeView::Tile { axis: u, fracs: f, .. },
                NodeView::Tile { axis: v, fracs: e, .. },
            ) => u == v && forall|l: int|
                0 <= l < self.kids[x].len() && !f.contains_key(other) ==> frac_of(
                    e,
                    #[trigger] t.kids[x][l],
                ) == frac_of(f, self.kids[x][l]),
            _ => false,
        } by {
            assert(self.nodes.contains_key(x));
            if self.nodes[x] is Tile {
                assert(self.kids.contains_key(x));
                let f = self.nodes[x]->fracs;
                let e = t.nodes[x]->fracs;
                assert forall|l: int|
                    0 <= l < self.kids[x].len() && !f.contains_key(other) implies frac_of(
                    e,
                    #[trigger] t.kids[x][l],
                ) == frac_of(f, self.kids[x][l]) by {
                    assert(is_kid(self.kids, x, l, self.kids[x][l]));
                    assert(r.kids[x][l] == if self.kids[x][l] == g {
                        other
                    } else {
                        self.kids[x][l]
                    });
                }
            }
        }
    }
}

} // verus!
