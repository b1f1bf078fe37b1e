//! What removing consoles and outputs keeps.
use vstd::prelude::*;

use crate::console_hut::HutView;
use crate::graph::{without, NodeId};
use crate::graph_nodes::{frac_of, NodeView, HALF_FRAC};
use crate::hut::shifted;
use crate::stack_laws::{is_kid, is_top, lemma_without_absent};
use crate::stack_model::{
    clamped, first_console, first_parent, first_slot_with, is_console, node_child_swapped, replaced,
    tops_of, SlotView, StackView, WrapKind,
};
use crate::tree::{
    acyclic, kids_of, law_subtree_unfolds, ranked, some_rank, subtree, subtrees, Kids,
};

verus! {

pub proof fn lemma_subtrees_contains(k: Kids, ids: Seq<NodeId>, x: NodeId)
    ensures
        subtrees(k, ids).contains(x) <==> exists|j: int|
            0 <= j < ids.len() && subtree(k, #[trigger] ids[j]).contains(x),
    decreases ids.len(),
{
    if ids.len() > 0 {
        let t = ids.drop_last();
        lemma_subtrees_contains(k, t, x);
        lemma_concat_contains(subtrees(k, t), subtree(k, ids.last()), x);
        if subtrees(k, ids).contains(x) {
            if subtrees(k, t).contains(x) {
                let j = choose|j: int| 0 <= j < t.len() && subtree(k, #[trigger] t[j]).contains(x);
                assert(ids[j] == t[j]);
            } else {
                assert(subtree(k, ids[ids.len() - 1]).contains(x));
            }
        }
        if exists|j: int| 0 <= j < ids.len() && subtree(k, #[trigger] ids[j]).contains(x) {
            let j = choose|j: int|
                0 <= j < ids.len() && subtree(k, #[trigger] ids[j]).contains(x);
            if j < t.len() {
                assert(t[j] == ids[j]);
            }
        }
    }
}

pub proof fn lemma_concat_contains(a: Seq<NodeId>, b: Seq<NodeId>, x: NodeId)
    ensures
        (a + b).contains(x) <==> a.contains(x) || b.contains(x),
{
    if a.contains(x) {
        let i = choose|i: int| 0 <= i < a.len() && a[i] == x;
        assert((a + b)[i] == x);
    }
    if b.contains(x) {
        let i = choose|i: int| 0 <= i < b.len() && b[i] == x;
        assert((a + b)[a.len() + i] == x);
    }
    if (a + b).contains(x) {
        let i = choose|i: int| 0 <= i < (a + b).len() && (a + b)[i] == x;
        if i < a.len() {
            assert(a[i] == x);
        } else {
            assert(b[i - a.len()] == x);
        }
    }
}

/// A node is in a subtree exactly if it is the root or in the subtree of one
/// of the root's children.
pub proof fn lemma_subtree_contains(k: Kids, t: NodeId, x: NodeId)
    requires
        acyclic(k),
    ensures
        subtree(k, t).contains(x) <==> x == t || exists|j: int|
            0 <= j < kids_of(k, t).len() && subtree(k, #[trigger] kids_of(k, t)[j]).contains(x),
        subtree(k, t).contains(t),
{
    law_subtree_unfolds(k, t);
    lemma_concat_contains(seq![t], subtrees(k, kids_of(k, t)), x);
    lemma_concat_contains(seq![t], subtrees(k, kids_of(k, t)), t);
    lemma_subtrees_contains(k, kids_of(k, t), x);
    assert(seq![t][0] == t);
    assert(seq![t].contains(x) <==> x == t);
}

/// Below the root, a node of a subtree has its parent in the subtree.
proof fn lemma_subtree_parent(k: Kids, t: NodeId, x: NodeId) -> (r: (NodeId, int))
    requires
        acyclic(k),
        subtree(k, t).contains(x),
        x != t,
    ensures
        subtree(k, t).contains(r.0),
        is_kid(k, r.0, r.1, x),
    decreases some_rank(k)(t),
{
    let rank = some_rank(k);
    assert(ranked(k, rank));
    lemma_subtree_contains(k, t, x);
    let ids = kids_of(k, t);
    let j = choose|j: int| 0 <= j < ids.len() && subtree(k, #[trigger] ids[j]).contains(x);
    assert(rank(k[t][j]) < rank(t));
    if x == ids[j] {
        assert(is_kid(k, t, j, x));
        (t, j)
    } else {
        let r = lemma_subtree_parent(k, ids[j], x);
        lemma_subtree_contains(k, t, r.0);
        assert(subtree(k, ids[j]).contains(r.0));
        r
    }
}

/// A subtree holds the children of each of its nodes.
pub proof fn lemma_subtree_closed(k: Kids, t: NodeId, p: NodeId, j: int, x: NodeId)
    requires
        acyclic(k),
        subtree(k, t).contains(p),
        is_kid(k, p, j, x),
    ensures
        subtree(k, t).contains(x),
    decreases some_rank(k)(t),
{
    let rank = some_rank(k);
    assert(ranked(k, rank));
    lemma_subtree_contains(k, t, p);
    lemma_subtree_contains(k, t, x);
    let ids = kids_of(k, t);
    if p == t {
        lemma_subtree_contains(k, x, x);
        assert(subtree(k, ids[j]).contains(x));
    } else {
        let i = choose|i: int| 0 <= i < ids.len() && subtree(k, #[trigger] ids[i]).contains(p);
        assert(rank(k[t][i]) < rank(t));
        lemma_subtree_closed(k, ids[i], p, j, x);
        assert(subtree(k, ids[i]).contains(x));
    }
}

pub proof fn lemma_tops_contains(slots: Seq<SlotView>, x: NodeId)
    ensures
        tops_of(slots).contains(x) <==> exists|i: int, j: int| is_top(slots, i, j, x),
    decreases slots.len(),
{
    if slots.len() > 0 {
        let t = slots.drop_last();
        lemma_tops_contains(t, x);
        lemma_concat_contains(tops_of(t), slots.last().huts, x);
        if tops_of(t).contains(x) {
            let (i, j) = choose|i: int, j: int| is_top(t, i, j, x);
            assert(is_top(slots, i, j, x));
        }
        if slots.last().huts.contains(x) {
            let j = choose|j: int| 0 <= j < slots.last().huts.len() && slots.last().huts[j] == x;
            assert(is_top(slots, slots.len() - 1, j, x));
        }
        if exists|i: int, j: int| is_top(slots, i, j, x) {
            let (i, j) = choose|i: int, j: int| is_top(slots, i, j, x);
            if i < t.len() {
                assert(is_top(t, i, j, x));
            }
        }
    } else {
        assert(!exists|i: int, j: int| is_top(slots, i, j, x));
    }
}

pub proof fn lemma_first_parent(k: Kids, ids: Seq<NodeId>, target: NodeId)
    ensures
        match first_parent(k, ids, target) {
            Some(p) => ids.contains(p) && kids_of(k, p).contains(target),
            None => forall|p: NodeId| #[trigger]
                ids.contains(p) ==> !kids_of(k, p).contains(target),
        },
    decreases ids.len(),
{
    if ids.len() > 0 {
        let t = ids.drop_first();
        assert(ids =~= seq![ids[0]] + t);
        assert(ids.contains(ids[0]));
        assert forall|p: NodeId| #[trigger] ids.contains(p) <==> p == ids[0] || t.contains(p) by {
            lemma_concat_contains(seq![ids[0]], t, p);
            assert(seq![ids[0]][0] == ids[0]);
        }
        if !kids_of(k, ids[0]).contains(target) {
            lemma_first_parent(k, t, target);
        }
    }
}

pub proof fn lemma_first_console(nodes: Map<NodeId, NodeView>, ids: Seq<NodeId>, hut: u64)
    ensures
        match first_console(nodes, ids, hut) {
            Some(id) => ids.contains(id) && is_console(nodes, id, hut),
            None => forall|id: NodeId| #[trigger] ids.contains(id) ==> !is_console(nodes, id, hut),
        },
    decreases ids.len(),
{
    if ids.len() > 0 {
        let t = ids.drop_first();
        assert(ids =~= seq![ids[0]] + t);
        assert(ids.contains(ids[0]));
        assert forall|p: NodeId| #[trigger] ids.contains(p) <==> p == ids[0] || t.contains(p) by {
            lemma_concat_contains(seq![ids[0]], t, p);
            assert(seq![ids[0]][0] == ids[0]);
        }
        if !is_console(nodes, ids[0], hut) {
            lemma_first_console(nodes, t, hut);
        }
    }
}

pub proof fn lemma_first_slot(slots: Seq<SlotView>, id: NodeId)
    ensures
        0 <= first_slot_with(slots, id) <= slots.len(),
        first_slot_with(slots, id) < slots.len() ==> slots[first_slot_with(
            slots,
            id,
        )].huts.contains(id),
        first_slot_with(slots, id) == slots.len() ==> forall|i: int, j: int|
            !#[trigger] is_top(slots, i, j, id),
    decreases slots.len(),
{
    if slots.len() > 0 && !slots[0].huts.contains(id) {
        let t = slots.drop_first();
        lemma_first_slot(t, id);
        assert forall|i: int, j: int| first_slot_with(slots, id) == slots.len() implies !#[trigger] is_top(
            slots,
            i,
            j,
            id,
        ) by {
            if is_top(slots, i, j, id) {
                if i == 0 {
                    assert(slots[0].huts.contains(id));
                } else {
                    assert(is_top(t, i - 1, j, id));
                }
            }
        }
    }
}

impl StackView {
    /// A node under some top-level entry that is itself no top-level entry has
    /// a parent under some top-level entry.
    pub proof fn lemma_reached_parent(self, x: NodeId) -> (r: (NodeId, int))
        requires
            self.sound(),
            self.all_ids().contains(x),
            forall|i: int, j: int| !#[trigger] is_top(self.slots, i, j, x),
        ensures
            self.all_ids().contains(r.0),
            is_kid(self.kids, r.0, r.1, x),
    {
        let tops = self.tops();
        lemma_subtrees_contains(self.kids, tops, x);
        let j = choose|j: int|
            0 <= j < tops.len() && subtree(self.kids, #[trigger] tops[j]).contains(x);
        lemma_tops_contains(self.slots, tops[j]);
        assert(tops.contains(tops[j]));
        let r = lemma_subtree_parent(self.kids, tops[j], x);
        lemma_subtrees_contains(self.kids, tops, r.0);
        r
    }

    pub proof fn lemma_swap_absent(self, ids: Seq<NodeId>, old_id: NodeId, new_id: NodeId)
        requires
            forall|p: NodeId, j: int| !#[trigger] is_kid(self.kids, p, j, old_id),
        ensures
            self.children_swapped(ids, old_id, new_id) == self,
        decreases ids.len(),
    {
        if ids.len() > 0 {
            self.lemma_swap_absent(ids.drop_last(), old_id, new_id);
            let list = kids_of(self.kids, ids.last());
            if list.contains(old_id) {
                let j = choose|j: int| 0 <= j < list.len() && list[j] == old_id;
                assert(is_kid(self.kids, ids.last(), j, old_id));
            }
        }
    }

    pub proof fn lemma_swap_unique(
        self,
        ids: Seq<NodeId>,
        g: NodeId,
        at: int,
        old_id: NodeId,
        new_id: NodeId,
    )
        requires
            is_kid(self.kids, g, at, old_id),
            forall|p: NodeId, j: int| #[trigger]
                is_kid(self.kids, p, j, old_id) ==> p == g && j == at,
            old_id != new_id,
        ensures
            self.children_swapped(ids, old_id, new_id) == (if ids.contains(g) {
                self.child_swapped(g, old_id, new_id)
            } else {
                self
            }),
        decreases ids.len(),
    {
        if ids.len() > 0 {
            let t = ids.drop_last();
            let last = ids.last();
            self.lemma_swap_unique(t, g, at, old_id, new_id);
            assert(ids =~= t + seq![last]);
            lemma_concat_contains(t, seq![last], g);
            assert(seq![last][0] == last);
            let list = self.kids[g];
            list.index_of_first_ensures(old_id);
            assert(list.contains(old_id));
            let first = list.index_of_first(old_id)->0;
            assert(is_kid(self.kids, g, first, old_id));
            let before = self.children_swapped(t, old_id, new_id);
            let there = kids_of(before.kids, last);
            if last != g {
                if there.contains(old_id) {
                    let j = choose|j: int| 0 <= j < there.len() && there[j] == old_id;
                    assert(is_kid(self.kids, last, j, old_id));
                }
            } else if t.contains(g) {
                if there.contains(old_id) {
                    let j = choose|j: int| 0 <= j < there.len() && there[j] == old_id;
                    assert(is_kid(self.kids, g, j, old_id));
                }
            }
        }
    }

    /// The tree in which a node with three children or more lost one, a
    /// console, is sound.
    #[verifier::spinoff_prover]
    #[verifier::rlimit(60)]
    proof fn lemma_shrunk_sound(self, id: NodeId, parent: NodeId, at: int)
        requires
            self.sound(),
            self.nodes.contains_key(id),
            self.nodes[id] is Console,
            is_kid(self.kids, parent, at, id),
            self.kids[parent].index_of_first(id)->0 == at,
            self.kids[parent].len() != 2,
            first_parent(self.kids, self.all_ids(), id) == Some(parent),
        ensures
            self.child_removed(id).without_node(id).sound(),
    {
        assert(self.nodes.contains_key(parent));
        let list = self.kids[parent];
        let rest = list.remove(at);
        assert(list.len() >= 3);
        let c = self.child_removed(id);
        let t = c.without_node(id);
        let rank = some_rank(self.kids);
        assert(ranked(self.kids, rank));
        assert(c.kids == self.kids.insert(parent, rest));
        assert forall|p: NodeId| #[trigger] c.kids.contains_key(p) implies without(
            c.kids[p],
            id,
        ) == c.kids[p] && p != id by {
            if c.kids[p].contains(id) {
                let j = choose|j: int| 0 <= j < c.kids[p].len() && c.kids[p][j] == id;
                if p == parent {
                    let j2 = if j < at {
                        j
                    } else {
                        j + 1
                    };
                    assert(is_kid(self.kids, parent, j2, id));
                } else {
                    assert(is_kid(self.kids, p, j, id));
                }
            }
            lemma_without_absent(c.kids[p], id);
            assert(self.kids.contains_key(p));
        }
        assert(t.kids =~= c.kids);
        assert forall|p: NodeId, j: int, x: NodeId| #[trigger]
            is_kid(t.kids, p, j, x) implies is_kid(
            self.kids,
            p,
            if p == parent && j >= at {
                j + 1
            } else {
                j
            },
            x,
        ) && x != id by {
            let j2 = if p == parent && j >= at {
                j + 1
            } else {
                j
            };
            assert(is_kid(self.kids, p, j2, x));
        }
        assert(t.linked());
        assert(t.unshared());
        assert(t.filled());
        assert(t.containers_only());
        assert(ranked(t.kids, rank)) by {
            assert forall|p: NodeId, j: int|
                t.kids.contains_key(p) && 0 <= j < t.kids[p].len() implies rank(
                #[trigger] t.kids[p][j],
            ) < rank(p) by {
                let j2 = if p == parent && j >= at {
                    j + 1
                } else {
                    j
                };
                assert(is_kid(t.kids, p, j, t.kids[p][j]));
                assert(rank(self.kids[p][j2]) < rank(p));
            }
        }
    }

    /// Taking a console that is a child of some node out of the tree keeps
    /// the tree sound.
    proof fn lemma_nested_exit_sound(self, id: NodeId)
        requires
            self.sound(),
            self.all_ids().contains(id),
            self.nodes.contains_key(id),
            self.nodes[id] is Console,
            forall|i: int, j: int| !#[trigger] is_top(self.slots, i, j, id),
        ensures
            self.child_removed(id).without_node(id).sound(),
            !self.child_removed(id).without_node(id).nodes.contains_key(id),
            forall|x: NodeId| #[trigger]
                self.child_removed(id).without_node(id).nodes.contains_key(x)
                    ==> self.nodes.contains_key(x),
            self.child_removed(id).without_node(id).slots.len() == self.slots.len(),
            forall|i: int|
                0 <= i < self.slots.len() ==> {
                    let after = #[trigger] self.child_removed(id).without_node(id).slots[i];
                    &&& after.huts.len() == self.slots[i].huts.len()
                    &&& after.current == self.slots[i].current
                    &&& after.preview == self.slots[i].preview
                },
    {
        let (p0, j0) = self.lemma_reached_parent(id);
        lemma_first_parent(self.kids, self.all_ids(), id);
        assert(kids_of(self.kids, p0)[j0] == id);
        assert(kids_of(self.kids, p0).contains(id));
        let parent = first_parent(self.kids, self.all_ids(), id)->0;
        let list = self.kids[parent];
        list.index_of_first_ensures(id);
        let at = list.index_of_first(id)->0;
        assert(is_kid(self.kids, parent, at, id));
        let rest = list.remove(at);
        assert(self.nodes.contains_key(parent));
        let c = self.child_removed(id);
        let t = c.without_node(id);
        let rank = some_rank(self.kids);
        assert(ranked(self.kids, rank));
        if rest.len() != 1 {
            self.lemma_shrunk_sound(id, parent, at);
        } else {
            let survivor = rest[0];
            let sj = if at == 0 {
                1int
            } else {
                0int
            };
            assert(is_kid(self.kids, parent, sj, survivor));
            assert(survivor != id);
            assert(rank(self.kids[parent][sj]) < rank(parent));
            let s = self.tops_swapped(parent, survivor);
            let r = self.repointed(parent, survivor);
            let is_root = exists|i: int, j: int| is_top(self.slots, i, j, parent);
            if is_root {
                let (i0, j0) = choose|i: int, j: int| is_top(self.slots, i, j, parent);
                s.lemma_swap_absent(s.all_ids(), parent, survivor);
                assert(r == s);
                self.lemma_collapsed_sound(
                    t,
                    id,
                    parent,
                    survivor,
                    sj,
                    at,
                    None,
                    0,
                    (i0, j0),
                );
            } else {
                assert(s.slots =~= self.slots) by {
                    assert forall|i: int| 0 <= i < self.slots.len() implies s.slots[i]
                        == #[trigger] self.slots[i] by {
                        let huts = self.slots[i].huts;
                        assert forall|j: int| 0 <= j < huts.len() implies #[trigger] replaced(
                            huts,
                            parent,
                            survivor,
                        )[j] == huts[j] by {
                            assert(is_top(self.slots, i, j, huts[j]));
                        }
                        assert(replaced(huts, parent, survivor) =~= huts);
                    }
                }
                assert(s == self);
                let (g, gj) = self.lemma_reached_parent(parent);
                self.lemma_swap_unique(self.all_ids(), g, gj, parent, survivor);
                assert(r == self.child_swapped(g, parent, survivor));
                let glist = self.kids[g];
                glist.index_of_first_ensures(parent);
                assert(glist.contains(parent));
                assert(is_kid(self.kids, g, glist.index_of_first(parent)->0, parent));
                self.lemma_collapsed_sound(
                    t,
                    id,
                    parent,
                    survivor,
                    sj,
                    at,
                    Some(g),
                    gj,
                    (0, 0),
                );
            }
        }
    }

    /// The tree without `id` and without its parent, `survivor`, the other
    /// child, being put in the parent's place, is sound.
    proof fn lemma_collapsed_sound(
        self,
        t: StackView,
        id: NodeId,
        parent: NodeId,
        survivor: NodeId,
        sj: int,
        at: int,
        g: Option<NodeId>,
        gj: int,
        top: (int, int),
    )
        requires
            self.sound(),
            self.nodes.contains_key(id),
            self.nodes[id] is Console,
            is_kid(self.kids, parent, at, id),
            is_kid(self.kids, parent, sj, survivor),
            self.kids[parent].len() == 2,
            survivor != id,
            match g {
                Some(g) => is_kid(self.kids, g, gj, parent) && t == self.child_swapped(
                    g,
                    parent,
                    survivor,
                ).without_node(parent).without_node(id) && self.kids[g].contains(parent)
                    && self.kids[g].index_of_first(parent)->0 == gj,
                None => is_top(self.slots, top.0, top.1, parent) && t == self.tops_swapped(
                    parent,
                    survivor,
                ).without_node(parent).without_node(id),
            },
        ensures
            t.sound(),
            !t.nodes.contains_key(id),
            forall|x: NodeId| #[trigger] t.nodes.contains_key(x) ==> self.nodes.contains_key(x),
            t.slots.len() == self.slots.len(),
            forall|i: int|
                0 <= i < self.slots.len() ==> (#[trigger] t.slots[i]).huts.len()
                    == self.slots[i].huts.len() && t.slots[i].current == self.slots[i].current
                    && t.slots[i].preview == self.slots[i].preview,
    {
        assert(self.kids.contains_key(parent));
        assert(self.nodes.contains_key(parent));
        let rank = some_rank(self.kids);
        assert(ranked(self.kids, rank));
        assert(rank(self.kids[parent][sj]) < rank(parent));
        assert(rank(self.kids[parent][at]) < rank(parent));
        let r = match g {
            Some(g) => self.child_swapped(g, parent, survivor),
            None => self.tops_swapped(parent, survivor),
        };
        if g is Some {
            assert(rank(self.kids[g->0][gj]) < rank(g->0));
        }
        // The kids of the swapped tree.
        assert forall|p: NodeId, j: int, x: NodeId| #[trigger] is_kid(r.kids, p, j, x) implies (g
            == Some(p) && j == gj && x == survivor) || (is_kid(self.kids, p, j, x) && x != parent
            && !(g == Some(p) && j == gj)) by {
            if !(g == Some(p) && j == gj) {
                assert(is_kid(self.kids, p, j, x));
            }
        }
        let m = r.without_node(parent);
        assert forall|p: NodeId| #[trigger] r.kids.contains_key(p) implies without(
            r.kids[p],
            parent,
        ) == r.kids[p] by {
            if r.kids[p].contains(parent) {
                let j = choose|j: int| 0 <= j < r.kids[p].len() && r.kids[p][j] == parent;
                assert(is_kid(r.kids, p, j, parent));
            }
            lemma_without_absent(r.kids[p], parent);
        }
        assert(m.kids =~= r.kids.remove(parent));
        assert forall|p: NodeId| #[trigger] m.kids.contains_key(p) implies without(m.kids[p], id)
            == m.kids[p] && p != id by {
            if m.kids[p].contains(id) {
                let j = choose|j: int| 0 <= j < m.kids[p].len() && m.kids[p][j] == id;
                assert(is_kid(r.kids, p, j, id));
                assert(is_kid(self.kids, p, j, id));
            }
            lemma_without_absent(m.kids[p], id);
            assert(self.kids.contains_key(p));
        }
        assert(t.kids =~= r.kids.remove(parent));
        assert forall|p: NodeId, j: int, x: NodeId| #[trigger] is_kid(t.kids, p, j, x) implies p
            != parent && ((g == Some(p) && j == gj && x == survivor) || (is_kid(self.kids, p, j, x)
            && x != parent && x != survivor && x != id && !(g == Some(p) && j == gj))) by {
            assert(is_kid(r.kids, p, j, x));
        }
        assert forall|i: int, j: int, x: NodeId| #[trigger] is_top(t.slots, i, j, x) implies (g
            is None && (i, j) == top && x == survivor) || (is_top(self.slots, i, j, x) && x
            != parent && x != survivor && x != id && !(g is None && (i, j) == top)) by {
            let y = self.slots[i].huts[j];
            assert(is_top(self.slots, i, j, y));
        }
        assert forall|x: NodeId| #[trigger] t.nodes.contains_key(x) <==> (self.nodes.contains_key(
            x,
        ) && x != parent && x != id) by {}
        assert(self.nodes.contains_key(survivor));
        assert(survivor != parent);
        assert(t.linked()) by {
            assert forall|p: NodeId, j: int, x: NodeId| #[trigger]
                is_kid(t.kids, p, j, x) implies t.nodes.contains_key(x) by {
                if is_kid(self.kids, p, j, x) {
                }
            }
            assert forall|i: int, j: int, x: NodeId| #[trigger]
                is_top(t.slots, i, j, x) implies t.nodes.contains_key(x) by {
                if is_top(self.slots, i, j, x) {
                }
            }
        }
        assert(t.unshared());
        assert(t.filled()) by {
            assert forall|q: NodeId| #[trigger] t.nodes.contains_key(q) implies match t.nodes[q] {
                NodeView::Console(_) => true,
                NodeView::Tab { active, .. } => t.kids.contains_key(q) && t.kids[q].len() >= 2
                    && active < t.kids[q].len(),
                NodeView::Tile { active, .. } => t.kids.contains_key(q) && t.kids[q].len() >= 2
                    && active < t.kids[q].len(),
            } by {
                assert(self.nodes.contains_key(q));
            }
        }
        assert(t.containers_only()) by {
            assert forall|p: NodeId| #[trigger] t.kids.contains_key(p) implies t.nodes.contains_key(
                p,
            ) && !(t.nodes[p] is Console) by {
                assert(self.kids.contains_key(p));
                assert(self.nodes.contains_key(p));
            }
        }
        assert(ranked(t.kids, rank)) by {
            assert forall|p: NodeId, j: int|
                t.kids.contains_key(p) && 0 <= j < t.kids[p].len() implies rank(
                #[trigger] t.kids[p][j],
            ) < rank(p) by {
                let x = t.kids[p][j];
                assert(is_kid(t.kids, p, j, x));
                if !(g == Some(p) && j == gj) {
                    assert(rank(self.kids[p][j]) < rank(p));
                }
            }
        }
        assert(t.numbered()) by {
            assert forall|q: NodeId| #[trigger] t.nodes.contains_key(q) implies q.0 < t.next_id by {
                assert(self.nodes.contains_key(q));
            }
        }
    }

    /// After a console exits, the stack is well formed again, no output is
    /// ever left empty, and the console's node is gone.
    pub proof fn law_exit_keeps_well_formed(self, hut: u64, fresh: HutView)
        requires
            self.well_formed(),
            self.exit_spawns(hut) ==> self.next_id < u64::MAX,
        ensures
            self.exited(hut, fresh).well_formed(),
            match first_console(self.nodes, self.all_ids(), hut) {
                Some(id) => !self.exited(hut, fresh).nodes.contains_key(id),
                None => self.exited(hut, fresh) == self,
            },
    {
        lemma_first_console(self.nodes, self.all_ids(), hut);
        match first_console(self.nodes, self.all_ids(), hut) {
            None => {},
            Some(id) => {
                let top = first_slot_with(self.slots, id);
                lemma_first_slot(self.slots, id);
                let i = self.exit_output(hut, id);
                self.lemma_output_of_bounds(hut, 0);
                let s = self.without_console(id);
                if top < self.slots.len() {
                    let o = self.slots[top];
                    o.huts.index_of_first_ensures(id);
                    let at = o.huts.index_of_first(id)->0;
                    let n = o.huts.len() - 1;
                    self.lemma_top_dropped_sound(
                        top,
                        at,
                        SlotView {
                            huts: o.huts.remove(at),
                            current: shifted(o.current as int, at, n) as usize,
                            preview: match o.preview {
                                Some(p) => Some(shifted(p as int, at, n) as usize),
                                None => None,
                            },
                            ..o
                        },
                    );
                } else {
                    self.lemma_nested_exit_sound(id);
                }
                assert(s.sound());
                assert(s.next_id == self.next_id && s.focused == self.focused) by {
                    self.lemma_without_console_keeps(id);
                }
                assert(0 <= i < s.slots.len());
                let u = if s.slots[i].huts.len() == 0 {
                    s.lemma_spawned_sound(i, fresh);
                    s.spawned(i, fresh)
                } else {
                    s
                };
                assert(!u.nodes.contains_key(id)) by {
                    assert(self.nodes.contains_key(id));
                }
                let o = u.slots[i];
                u.lemma_reindexed(
                    i,
                    SlotView {
                        current: clamped(o.current, o.huts.len()),
                        preview: match o.preview {
                            Some(p) => Some(clamped(p, o.huts.len())),
                            None => None,
                        },
                        ..o
                    },
                );
                let t = u.settled(i);
                assert(t == self.exited(hut, fresh));
                assert forall|a: int| 0 <= a < t.slots.len() implies (#[trigger] t.slots[a]).current
                    < t.slots[a].huts.len() && (t.slots[a].preview is Some
                    ==> t.slots[a].preview->0 < t.slots[a].huts.len()) by {
                    assert(self.slots[a].current < self.slots[a].huts.len());
                    if a != i {
                        assert(u.slots[a] == s.slots[a]);
                        if top < self.slots.len() {
                            assert(s.slots[a] == self.slots[a]);
                        }
                    }
                }
            },
        }
    }

    /// Where no two consoles share a number, a console that exited is nowhere
    /// in the stack any more.
    pub proof fn law_exited_console_is_gone(self, hut: u64, fresh: HutView)
        requires
            self.well_formed(),
            self.exit_spawns(hut) ==> self.next_id < u64::MAX,
            fresh.id != hut,
            forall|a: NodeId, b: NodeId| #[trigger]
                is_console(self.nodes, a, hut) && #[trigger] is_console(self.nodes, b, hut) ==> a
                    == b,
            first_console(self.nodes, self.all_ids(), hut) is Some,
        ensures
            forall|x: NodeId| !#[trigger] is_console(self.exited(hut, fresh).nodes, x, hut),
    {
        let id = first_console(self.nodes, self.all_ids(), hut)->0;
        lemma_first_console(self.nodes, self.all_ids(), hut);
        self.law_exit_keeps_well_formed(hut, fresh);
        let s = self.without_console(id);
        let t = self.exited(hut, fresh);
        let i = self.exit_output(hut, id);
        self.lemma_without_console_huts(id);
        assert forall|x: NodeId| !#[trigger] is_console(t.nodes, x, hut) by {
            if is_console(t.nodes, x, hut) {
                if s.slots[i].huts.len() == 0 {
                    assert(x != s.fresh_id());
                }
                assert(is_console(s.nodes, x, hut));
                assert(is_console(self.nodes, x, hut));
            }
        }
    }

    /// Taking a console out makes no other console.
    proof fn lemma_without_console_huts(self, id: NodeId)
        ensures
            forall|x: NodeId, hut: u64| #[trigger]
                is_console(self.without_console(id).nodes, x, hut) ==> is_console(
                    self.nodes,
                    x,
                    hut,
                ),
    {
        let c = self.child_removed(id);
        assert forall|x: NodeId, hut: u64| #[trigger] is_console(c.nodes, x, hut) implies is_console(
            self.nodes,
            x,
            hut,
        ) by {
            match first_parent(self.kids, self.all_ids(), id) {
                None => {},
                Some(parent) => {
                    let list = self.kids[parent];
                    let rest = list.remove(list.index_of_first(id)->0);
                    if rest.len() == 1 {
                        let s = self.tops_swapped(parent, rest[0]);
                        s.lemma_children_swapped_huts(s.all_ids(), parent, rest[0]);
                        assert(is_console(self.repointed(parent, rest[0]).nodes, x, hut));
                    }
                },
            }
        }
        let t = self.without_console(id);
        assert forall|x: NodeId, hut: u64| #[trigger] is_console(t.nodes, x, hut) implies is_console(
            self.nodes,
            x,
            hut,
        ) by {
            if first_slot_with(self.slots, id) >= self.slots.len() {
                assert(is_console(c.nodes, x, hut));
            }
        }
    }

    proof fn lemma_children_swapped_huts(
        self,
        parents: Seq<NodeId>,
        old_id: NodeId,
        new_id: NodeId,
    )
        ensures
            forall|x: NodeId, hut: u64| #[trigger]
                is_console(self.children_swapped(parents, old_id, new_id).nodes, x, hut)
                    ==> is_console(self.nodes, x, hut),
        decreases parents.len(),
    {
        if parents.len() > 0 {
            let t = parents.drop_last();
            self.lemma_children_swapped_huts(t, old_id, new_id);
            let before = self.children_swapped(t, old_id, new_id);
            let after = self.children_swapped(parents, old_id, new_id);
            assert forall|x: NodeId, hut: u64| #[trigger]
                is_console(after.nodes, x, hut) implies is_console(self.nodes, x, hut) by {
                assert(is_console(before.nodes, x, hut));
            }
        }
    }

    /// What is left of the tree without these nodes: the lists of the others,
    /// where they name none of them, stay as they were.
    pub proof fn lemma_without_nodes_kept(self, ids: Seq<NodeId>)
        ensures
            forall|x: NodeId| #[trigger]
                self.without_nodes(ids).nodes.contains_key(x) <==> self.nodes.contains_key(x)
                    && !ids.contains(x),
            forall|x: NodeId| #[trigger]
                self.without_nodes(ids).nodes.contains_key(x) ==> self.without_nodes(ids).nodes[x]
                    == self.nodes[x],
            forall|p: NodeId| #[trigger]
                self.without_nodes(ids).kids.contains_key(p) <==> self.kids.contains_key(p)
                    && !ids.contains(p),
            forall|p: NodeId| #[trigger]
                self.without_nodes(ids).kids.contains_key(p) && (forall|x: NodeId|
                    ids.contains(x) ==> !#[trigger] self.kids[p].contains(x))
                    ==> self.without_nodes(ids).kids[p] == self.kids[p],
        decreases ids.len(),
    {
        if ids.len() > 0 {
            let t = ids.drop_last();
            self.lemma_without_nodes_kept(t);
            assert(ids =~= t + seq![ids.last()]);
            assert forall|x: NodeId| #[trigger] ids.contains(x) <==> t.contains(x) || x
                == ids.last() by {
                lemma_concat_contains(t, seq![ids.last()], x);
                assert(seq![ids.last()][0] == ids.last());
            }
            let before = self.without_nodes(t);
            assert forall|p: NodeId| #[trigger]
                self.without_nodes(ids).kids.contains_key(p) && (forall|x: NodeId|
                    ids.contains(x) ==> !#[trigger] self.kids[p].contains(x)) implies self.without_nodes(
            ids).kids[p] == self.kids[p] by {
                assert(before.kids.contains_key(p));
                assert(before.kids[p] == self.kids[p]);
                assert(ids.contains(ids.last()));
                lemma_without_absent(self.kids[p], ids.last());
            }
        }
    }

    /// Removing the whole subtree of a root that no output lists keeps the
    /// tree sound.
    proof fn lemma_subtree_dropped_sound(self, root: NodeId)
        requires
            self.sound(),
            self.nodes.contains_key(root),
            forall|p: NodeId, j: int| !#[trigger] is_kid(self.kids, p, j, root),
            forall|i: int, j: int| !#[trigger] is_top(self.slots, i, j, root),
        ensures
            self.without_nodes(subtree(self.kids, root)).sound(),
            forall|x: NodeId|
                (forall|p: NodeId, j: int| !#[trigger] is_kid(self.kids, p, j, x)) && x != root
                    && self.nodes.contains_key(x) ==> #[trigger] self.without_nodes(
                    subtree(self.kids, root),
                ).nodes.contains_key(x),
            forall|p: NodeId, j: int, x: NodeId| #[trigger]
                is_kid(self.without_nodes(subtree(self.kids, root)).kids, p, j, x) ==> is_kid(
                    self.kids,
                    p,
                    j,
                    x,
                ),
            forall|p: NodeId| #[trigger]
                self.without_nodes(subtree(self.kids, root)).kids.contains_key(p)
                    ==> self.kids.contains_key(p) && self.without_nodes(
                    subtree(self.kids, root),
                ).kids[p] == self.kids[p],
    {
        let d = subtree(self.kids, root);
        let t = self.without_nodes(d);
        self.lemma_without_nodes_kept(d);
        self.lemma_without_nodes(d);
        // A list outside the subtree names none of its nodes.
        assert forall|p: NodeId, x: NodeId|
            #![trigger t.kids.contains_key(p), d.contains(x)]
            t.kids.contains_key(p) && d.contains(x) implies !self.kids[p].contains(x) by {
            if self.kids[p].contains(x) {
                let j = choose|j: int| 0 <= j < self.kids[p].len() && self.kids[p][j] == x;
                assert(is_kid(self.kids, p, j, x));
                let r = lemma_subtree_parent(self.kids, root, x);
                assert(is_kid(self.kids, r.0, r.1, x));
            }
        }
        assert forall|p: NodeId| #[trigger] t.kids.contains_key(p) implies t.kids[p]
            == self.kids[p] by {
            assert forall|x: NodeId| d.contains(x) implies !#[trigger] self.kids[p].contains(x) by {}
        }
        assert forall|p: NodeId, j: int, x: NodeId| #[trigger] is_kid(t.kids, p, j, x) implies is_kid(
            self.kids,
            p,
            j,
            x,
        ) && !d.contains(x) by {
            assert(is_kid(self.kids, p, j, x));
            assert(self.kids[p].contains(x));
        }
        assert forall|x: NodeId|
            (forall|p: NodeId, j: int| !#[trigger] is_kid(self.kids, p, j, x)) && x != root
                && self.nodes.contains_key(x) implies #[trigger] t.nodes.contains_key(x) by {
            if d.contains(x) {
                let r = lemma_subtree_parent(self.kids, root, x);
                assert(is_kid(self.kids, r.0, r.1, x));
            }
        }
        assert(t.linked()) by {
            assert forall|i: int, j: int, x: NodeId| #[trigger]
                is_top(t.slots, i, j, x) implies t.nodes.contains_key(x) by {
                assert(is_top(self.slots, i, j, x));
                assert forall|p: NodeId, l: int| !#[trigger] is_kid(self.kids, p, l, x) by {}
            }
        }
        assert(t.unshared());
        assert(t.filled()) by {
            assert forall|q: NodeId| #[trigger] t.nodes.contains_key(q) implies match t.nodes[q] {
                NodeView::Console(_) => true,
                NodeView::Tab { active, .. } => t.kids.contains_key(q) && t.kids[q].len() >= 2
                    && active < t.kids[q].len(),
                NodeView::Tile { active, .. } => t.kids.contains_key(q) && t.kids[q].len() >= 2
                    && active < t.kids[q].len(),
            } by {
                assert(self.nodes.contains_key(q));
                if !(self.nodes[q] is Console) {
                    assert(t.kids.contains_key(q));
                    assert(t.kids[q] == self.kids[q]);
                }
            }
        }
        assert(t.containers_only()) by {
            assert forall|p: NodeId| #[trigger] t.kids.contains_key(p) implies t.nodes.contains_key(
                p,
            ) && !(t.nodes[p] is Console) by {
                assert(self.kids.contains_key(p));
                assert(self.nodes.contains_key(p));
            }
        }
        assert(t.numbered()) by {
            assert forall|q: NodeId| #[trigger] t.nodes.contains_key(q) implies q.0 < t.next_id by {
                assert(self.nodes.contains_key(q));
            }
        }
    }

    proof fn lemma_subtrees_dropped_sound(self, roots: Seq<NodeId>)
        requires
            self.sound(),
            forall|a: int| 0 <= a < roots.len() ==> self.nodes.contains_key(#[trigger] roots[a]),
            forall|a: int, b: int| 0 <= a < b < roots.len() ==> roots[a] != roots[b],
            forall|a: int, p: NodeId, j: int|
                0 <= a < roots.len() ==> !#[trigger] is_kid(self.kids, p, j, #[trigger] roots[a]),
            forall|a: int, i: int, j: int|
                0 <= a < roots.len() ==> !#[trigger] is_top(self.slots, i, j, #[trigger] roots[a]),
        ensures
            self.without_subtrees(roots).sound(),
            self.without_subtrees(roots).slots == self.slots,
            forall|x: NodeId|
                (forall|p: NodeId, j: int| !#[trigger] is_kid(self.kids, p, j, x))
                    && !roots.contains(x) && self.nodes.contains_key(x)
                    ==> #[trigger] self.without_subtrees(roots).nodes.contains_key(x),
            forall|p: NodeId, j: int, x: NodeId| #[trigger]
                is_kid(self.without_subtrees(roots).kids, p, j, x) ==> is_kid(self.kids, p, j, x),
            self.pruned_to(self.without_subtrees(roots)),
            forall|a: int|
                0 <= a < roots.len() ==> !self.without_subtrees(roots).nodes.contains_key(
                    #[trigger] roots[a],
                ),
        decreases roots.len(),
    {
        self.lemma_without_subtrees_keeps(roots);
        if roots.len() > 0 {
            let t = roots.drop_last();
            let last = roots.last();
            self.lemma_subtrees_dropped_sound(t);
            let before = self.without_subtrees(t);
            self.lemma_without_subtrees_keeps(t);
            assert(!t.contains(last)) by {
                if t.contains(last) {
                    let a = choose|a: int| 0 <= a < t.len() && t[a] == last;
                    assert(roots[a] != roots[roots.len() - 1]);
                }
            }
            assert forall|p: NodeId, j: int| !#[trigger] is_kid(self.kids, p, j, last) by {
                assert(!is_kid(self.kids, p, j, roots[roots.len() - 1]));
            }
            assert(self.nodes.contains_key(roots[roots.len() - 1]));
            assert(before.nodes.contains_key(last));
            assert forall|p: NodeId, j: int| !#[trigger] is_kid(before.kids, p, j, last) by {}
            assert forall|i: int, j: int| !#[trigger] is_top(before.slots, i, j, last) by {
                assert(!is_top(self.slots, i, j, roots[roots.len() - 1]));
            }
            before.lemma_subtree_dropped_sound(last);
            let after = self.without_subtrees(roots);
            assert(roots =~= t + seq![last]);
            assert forall|x: NodeId|
                (forall|p: NodeId, j: int| !#[trigger] is_kid(self.kids, p, j, x))
                    && !roots.contains(x) && self.nodes.contains_key(x) implies #[trigger] after.nodes.contains_key(
            x) by {
                lemma_concat_contains(t, seq![last], x);
                assert(seq![last][0] == last);
                assert(before.nodes.contains_key(x));
                assert forall|p: NodeId, j: int| !#[trigger] is_kid(before.kids, p, j, x) by {}
            }
            let d = subtree(before.kids, last);
            before.lemma_without_nodes_kept(d);
            law_subtree_unfolds(before.kids, last);
            assert(d[0] == last);
            assert(d.contains(last));
            assert forall|a: int| 0 <= a < roots.len() implies !after.nodes.contains_key(
                #[trigger] roots[a],
            ) by {
                if a < t.len() {
                    assert(t[a] == roots[a]);
                }
            }
            assert forall|p: NodeId, j: int, x: NodeId| #[trigger]
                is_kid(self.kids, p, j, x) && self.nodes.contains_key(p) && !after.nodes.contains_key(
                    p,
                ) implies !after.nodes.contains_key(x) by {
                if before.nodes.contains_key(p) {
                    assert(!(self.nodes[p] is Console));
                    assert(before.kids.contains_key(p));
                    assert(is_kid(before.kids, p, j, x));
                    lemma_subtree_closed(before.kids, last, p, j, x);
                }
            }
        }
    }

    /// Whether `t` has some of the nodes, as they were and with the children they
    /// had, and lacks everything below a node that it lacks.
    pub open spec fn pruned_to(self, t: StackView) -> bool {
        &&& forall|x: NodeId| #[trigger]
            t.nodes.contains_key(x) ==> self.nodes.contains_key(x) && t.nodes[x] == self.nodes[x]
        &&& forall|p: NodeId| #[trigger]
            t.kids.contains_key(p) ==> self.kids.contains_key(p) && t.kids[p] == self.kids[p]
        &&& forall|p: NodeId, j: int, x: NodeId| #[trigger]
            is_kid(self.kids, p, j, x) && self.nodes.contains_key(p) && !t.nodes.contains_key(p)
                ==> !t.nodes.contains_key(x)
    }

    proof fn lemma_pruned_below(self, t: StackView, top: NodeId, x: NodeId)
        requires
            self.sound(),
            t.sound(),
            self.pruned_to(t),
            self.nodes.contains_key(top),
            subtree(self.kids, top).contains(x),
        ensures
            t.nodes.contains_key(x) <==> t.nodes.contains_key(top),
        decreases some_rank(self.kids)(top),
    {
        let rank = some_rank(self.kids);
        assert(ranked(self.kids, rank));
        lemma_subtree_contains(self.kids, top, x);
        if x != top {
            let ids = kids_of(self.kids, top);
            let j = choose|j: int|
                0 <= j < ids.len() && subtree(self.kids, #[trigger] ids[j]).contains(x);
            assert(self.kids.contains_key(top));
            assert(is_kid(self.kids, top, j, ids[j]));
            assert(!(self.nodes[top] is Console));
            if t.nodes.contains_key(top) {
                assert(t.kids.contains_key(top));
                assert(is_kid(t.kids, top, j, ids[j]));
            }
            self.lemma_pruned_below(t, ids[j], x);
        }
    }

    /// Removing one of several outputs keeps a stack well formed, and leaves
    /// every other output as it was.
    pub proof fn law_remove_output_keeps_well_formed(self, i: int)
        requires
            self.well_formed(),
            self.slots.len() > 1,
            0 <= i < self.slots.len(),
        ensures
            self.without_output(i).well_formed(),
            self.without_output(i).slots == self.slots.remove(i),
            self.focused != i ==> self.without_output(i).out() == self.out(),
            self.pruned_to(self.without_output(i)),
            forall|a: int|
                0 <= a < self.slots[i].huts.len() ==> !self.without_output(i).nodes.contains_key(
                    #[trigger] self.slots[i].huts[a],
                ),
    {
        let roots = self.slots[i].huts;
        let s = StackView {
            slots: self.slots.remove(i),
            focused: if self.focused >= self.slots.len() - 1 {
                (self.slots.len() - 2) as usize
            } else if self.focused > i {
                (self.focused - 1) as usize
            } else {
                self.focused
            },
            ..self
        };
        assert forall|a: int, b: int, x: NodeId| #[trigger] is_top(s.slots, a, b, x) implies is_top(
            self.slots,
            if a < i {
                a
            } else {
                a + 1
            },
            b,
            x,
        ) by {}
        assert(s.linked());
        assert(s.unshared());
        assert(s.sound());
        assert forall|a: int| 0 <= a < roots.len() implies self.nodes.contains_key(
            #[trigger] roots[a],
        ) by {
            assert(is_top(self.slots, i, a, roots[a]));
        }
        assert forall|a: int, b: int| 0 <= a < b < roots.len() implies roots[a] != roots[b] by {
            assert(is_top(self.slots, i, a, roots[a]));
            assert(is_top(self.slots, i, b, roots[b]));
        }
        assert forall|a: int, p: NodeId, j: int| 0 <= a < roots.len() implies !#[trigger] is_kid(
            s.kids,
            p,
            j,
            #[trigger] roots[a],
        ) by {
            assert(is_top(self.slots, i, a, roots[a]));
        }
        assert forall|a: int, m: int, j: int| 0 <= a < roots.len() implies !#[trigger] is_top(
            s.slots,
            m,
            j,
            #[trigger] roots[a],
        ) by {
            assert(is_top(self.slots, i, a, roots[a]));
            if is_top(s.slots, m, j, roots[a]) {
                assert(is_top(
                    self.slots,
                    if m < i {
                        m
                    } else {
                        m + 1
                    },
                    j,
                    roots[a],
                ));
            }
        }
        s.lemma_subtrees_dropped_sound(roots);
        let u = StackView { slots: self.slots.remove(i), ..self };
        u.lemma_without_subtrees_same(s, roots);
        let t = self.without_output(i);
        assert(t == s.without_subtrees(roots));
        assert forall|a: int| 0 <= a < t.slots.len() implies (#[trigger] t.slots[a]).current
            < t.slots[a].huts.len() && (t.slots[a].preview is Some ==> t.slots[a].preview->0
            < t.slots[a].huts.len()) by {
            let b = if a < i {
                a
            } else {
                a + 1
            };
            assert(self.slots[b].current < self.slots[b].huts.len());
            assert(t.slots[a] == self.slots[b]);
        }
    }

    /// Which output has focus plays no part in dropping nodes.
    /// With an output goes everything that hangs under its entries, and nothing
    /// that hangs under another output's: that stays as it is. Where the focused
    /// output goes, the one after it has focus next, or the last one if none is
    /// after it.
    pub proof fn law_output_goes_with_what_it_holds(self, i: int, m: int, j: int, x: NodeId)
        requires
            self.well_formed(),
            self.slots.len() > 1,
            0 <= i < self.slots.len(),
            0 <= m < self.slots.len(),
            0 <= j < self.slots[m].huts.len(),
            subtree(self.kids, self.slots[m].huts[j]).contains(x),
        ensures
            ({
                let t = self.without_output(i);
                &&& m == i ==> !t.nodes.contains_key(x)
                &&& m != i ==> {
                    &&& t.nodes.contains_key(x)
                    &&& t.nodes[x] == self.nodes[x]
                    &&& kids_of(t.kids, x) == kids_of(self.kids, x)
                }
                &&& self.focused == i && i + 1 < self.slots.len() ==> t.out() == self.slots[i + 1]
                &&& self.focused == i && i + 1 == self.slots.len() ==> t.out() == self.slots[i - 1]
            }),
    {
        self.law_remove_output_keeps_well_formed(i);
        let t = self.without_output(i);
        let top = self.slots[m].huts[j];
        assert(is_top(self.slots, m, j, top));
        self.lemma_pruned_below(t, top, x);
        if m != i {
            let n = if m < i {
                m
            } else {
                m - 1
            };
            assert(t.slots[n] == self.slots[m]);
            assert(is_top(t.slots, n, j, top));
            if self.kids.contains_key(x) {
                assert(!(self.nodes[x] is Console));
                assert(t.kids.contains_key(x));
            }
        }
    }

    proof fn lemma_without_nodes_same(self, other: StackView, ids: Seq<NodeId>)
        requires
            other == (StackView { focused: other.focused, ..self }),
        ensures
            other.without_nodes(ids) == (StackView {
                focused: other.focused,
                ..self.without_nodes(ids)
            }),
        decreases ids.len(),
    {
        if ids.len() > 0 {
            self.lemma_without_nodes_same(other, ids.drop_last());
        }
    }

    proof fn lemma_without_subtrees_same(self, other: StackView, roots: Seq<NodeId>)
        requires
            other == (StackView { focused: other.focused, ..self }),
        ensures
            other.without_subtrees(roots) == (StackView {
                focused: other.focused,
                ..self.without_subtrees(roots)
            }),
        decreases roots.len(),
    {
        if roots.len() > 0 {
            let t = roots.drop_last();
            self.lemma_without_subtrees_same(other, t);
            let a = self.without_subtrees(t);
            let b = other.without_subtrees(t);
            self.lemma_without_subtrees_keeps(t);
            other.lemma_without_subtrees_keeps(t);
            a.lemma_without_nodes_same(b, subtree(a.kids, roots.last()));
        }
    }
}

/// Whether two nodes agree in all that shows, given their children: a Tab's
/// cached labels and shares kept for nodes that are no children do not count.
pub open spec fn shows_same(a: NodeView, b: NodeView, children: Seq<NodeId>) -> bool {
    match (a, b) {
        (NodeView::Console(x), NodeView::Console(y)) => x == y,
        (NodeView::Tab { active: x, .. }, NodeView::Tab { active: y, .. }) => x == y,
        (
            NodeView::Tile { axis: u, active: x, fracs: f },
            NodeView::Tile { axis: v, active: y, fracs: g },
        ) => u == v && x == y && forall|i: int|
            0 <= i < children.len() ==> frac_of(f, #[trigger] children[i]) == frac_of(
                g,
                children[i],
            ),
        _ => false,
    }
}

impl StackView {
    /// Every share is kept for a node that was handed out.
    pub open spec fn shares_numbered(self) -> bool {
        forall|p: NodeId, x: NodeId|
            #![trigger self.nodes.contains_key(p), self.nodes[p]->fracs.contains_key(x)]
            self.nodes.contains_key(p) && self.nodes[p] is Tile
                && self.nodes[p]->fracs.contains_key(x) ==> x.0 < self.next_id
    }

    proof fn lemma_kid_reached(self, p: NodeId, x: NodeId)
        requires
            acyclic(self.kids),
            self.all_ids().contains(p),
            kids_of(self.kids, p).contains(x),
        ensures
            self.all_ids().contains(x),
    {
        let tops = self.tops();
        lemma_subtrees_contains(self.kids, tops, p);
        lemma_subtrees_contains(self.kids, tops, x);
        let i = choose|i: int|
            0 <= i < tops.len() && subtree(self.kids, #[trigger] tops[i]).contains(p);
        let list = kids_of(self.kids, p);
        let j = choose|j: int| 0 <= j < list.len() && list[j] == x;
        lemma_subtree_closed(self.kids, tops[i], p, j, x);
    }

    proof fn lemma_chain_reached(self, chain: Seq<NodeId>, n: int)
        requires
            acyclic(self.kids),
            0 <= n < chain.len(),
            self.all_ids().contains(chain[0]),
            forall|j: int|
                0 <= j < n ==> kids_of(self.kids, #[trigger] chain[j]).contains(chain[j + 1]),
        ensures
            self.all_ids().contains(chain[n]),
        decreases n,
    {
        if n > 0 {
            self.lemma_chain_reached(chain, n - 1);
            assert(kids_of(self.kids, chain[n - 1]).contains(chain[n - 1 + 1]));
            self.lemma_kid_reached(chain[n - 1], chain[n]);
        }
    }

    proof fn lemma_top_reached(self, i: int, j: int, x: NodeId)
        requires
            acyclic(self.kids),
            is_top(self.slots, i, j, x),
        ensures
            self.all_ids().contains(x),
    {
        let tops = self.tops();
        lemma_tops_contains(self.slots, x);
        let at = choose|at: int| 0 <= at < tops.len() && tops[at] == x;
        lemma_subtree_contains(self.kids, x, x);
        lemma_subtrees_contains(self.kids, tops, x);
        assert(subtree(self.kids, tops[at]).contains(x));
    }

    /// What is left of a stack that had a leaf wrapped, once the wrapper and
    /// the fresh console beside the leaf are gone.
    proof fn lemma_unwrapped(
        self,
        w: StackView,
        new_id: NodeId,
        leaf: NodeId,
        wrapper: NodeId,
        parent: Option<(NodeId, int)>,
        top: (int, int),
    )
        requires
            self.sound(),
            w.sound(),
            w.slots.len() == self.slots.len(),
            !self.nodes.contains_key(new_id),
            !self.nodes.contains_key(wrapper),
            new_id != wrapper,
            self.nodes.contains_key(leaf),
            w.nodes.contains_key(new_id),
            w.nodes.contains_key(wrapper),
            w.all_ids().contains(wrapper),
            w.kids.contains_key(wrapper),
            w.kids[wrapper] == seq![new_id, leaf],
            w.nodes.dom() == self.nodes.dom().insert(new_id).insert(wrapper),
            match parent {
                Some((g, at)) => {
                    &&& is_kid(self.kids, g, at, leaf)
                    &&& w.all_ids().contains(g)
                    &&& w.kids == self.kids.insert(wrapper, seq![new_id, leaf]).insert(
                        g,
                        self.kids[g].update(at, wrapper),
                    )
                    &&& w.slots == self.slots
                    &&& forall|id: NodeId| #[trigger]
                        self.nodes.contains_key(id) && id != g ==> w.nodes[id] == self.nodes[id]
                    &&& w.nodes[g] == node_child_swapped(self.nodes[g], leaf, wrapper)
                    &&& self.nodes[g] is Tile ==> !self.nodes[g]->fracs.contains_key(wrapper)
                },
                None => {
                    &&& is_top(self.slots, top.0, top.1, leaf)
                    &&& w.kids == self.kids.insert(wrapper, seq![new_id, leaf])
                    &&& forall|id: NodeId| #[trigger]
                        self.nodes.contains_key(id) ==> w.nodes[id] == self.nodes[id]
                    &&& w.slots == self.slots.update(
                        top.0,
                        SlotView {
                            huts: self.slots[top.0].huts.update(top.1, wrapper),
                            ..self.slots[top.0]
                        },
                    )
                },
            },
        ensures
            ({
                let t = w.child_removed(new_id).without_node(new_id);
                &&& t.slots == self.slots
                &&& t.kids == self.kids
                &&& t.nodes.dom() == self.nodes.dom()
                &&& forall|x: NodeId| #[trigger]
                    self.nodes.contains_key(x) ==> shows_same(
                        t.nodes[x],
                        self.nodes[x],
                        kids_of(self.kids, x),
                    )
            }),
    {
        let list = seq![new_id, leaf];
        assert(is_kid(w.kids, wrapper, 0, new_id));
        lemma_first_parent(w.kids, w.all_ids(), new_id);
        assert(kids_of(w.kids, wrapper)[0] == new_id);
        assert(kids_of(w.kids, wrapper).contains(new_id));
        let p = first_parent(w.kids, w.all_ids(), new_id)->0;
        let pj = choose|j: int|
            0 <= j < kids_of(w.kids, p).len() && kids_of(w.kids, p)[j] == new_id;
        assert(is_kid(w.kids, p, pj, new_id));
        assert(p == wrapper);
        list.index_of_first_ensures(new_id);
        assert(list.contains(new_id)) by {
            assert(list[0] == new_id);
        }
        let first = list.index_of_first(new_id)->0;
        assert(is_kid(w.kids, wrapper, first, new_id));
        assert(first == 0);
        assert(list.remove(0) =~= seq![leaf]);
        let s = w.tops_swapped(wrapper, leaf);
        let r = w.repointed(wrapper, leaf);
        let c = w.child_removed(new_id);
        assert(c == r.without_node(wrapper));
        let t = c.without_node(new_id);
        assert(self.nodes.contains_key(leaf) && leaf != wrapper && leaf != new_id);
        match parent {
            None => {
                assert(is_top(w.slots, top.0, top.1, wrapper));
                assert forall|q: NodeId, j: int| !#[trigger] is_kid(s.kids, q, j, wrapper) by {
                    if is_kid(w.kids, q, j, wrapper) {
                        assert(!is_top(w.slots, top.0, top.1, wrapper));
                    }
                }
                s.lemma_swap_absent(s.all_ids(), wrapper, leaf);
                assert(r == s);
                assert(s.slots =~= self.slots) by {
                    assert forall|i: int| 0 <= i < self.slots.len() implies s.slots[i]
                        == #[trigger] self.slots[i] by {
                        let huts = w.slots[i].huts;
                        assert forall|j: int| 0 <= j < huts.len() implies #[trigger] replaced(
                            huts,
                            wrapper,
                            leaf,
                        )[j] == self.slots[i].huts[j] by {
                            assert(is_top(self.slots, i, j, self.slots[i].huts[j]));
                        }
                        assert(replaced(huts, wrapper, leaf) =~= self.slots[i].huts);
                    }
                }
                assert(r.kids == w.kids);
                assert(r.nodes == w.nodes);
            },
            Some((g, at)) => {
                assert(self.nodes.contains_key(g)) by {
                    assert(self.kids.contains_key(g));
                }
                assert(g != wrapper && g != new_id);
                let glist = w.kids[g];
                assert(is_kid(w.kids, g, at, wrapper));
                assert(s.slots =~= self.slots) by {
                    assert forall|i: int| 0 <= i < self.slots.len() implies s.slots[i]
                        == #[trigger] self.slots[i] by {
                        let huts = self.slots[i].huts;
                        assert forall|j: int| 0 <= j < huts.len() implies #[trigger] replaced(
                            huts,
                            wrapper,
                            leaf,
                        )[j] == huts[j] by {
                            assert(is_top(self.slots, i, j, huts[j]));
                        }
                        assert(replaced(huts, wrapper, leaf) =~= huts);
                    }
                }
                assert(s == w);
                w.lemma_swap_unique(w.all_ids(), g, at, wrapper, leaf);
                assert(r == w.child_swapped(g, wrapper, leaf));
                glist.index_of_first_ensures(wrapper);
                assert(glist.contains(wrapper)) by {
                    assert(glist[at] == wrapper);
                }
                assert(is_kid(w.kids, g, glist.index_of_first(wrapper)->0, wrapper));
                assert(glist.index_of_first(wrapper)->0 == at);
                assert(glist.update(at, leaf) =~= self.kids[g]);
                assert(r.kids =~= self.kids.insert(wrapper, list));
            },
        }
        assert(r.kids =~= self.kids.insert(wrapper, list));
        assert(r.slots == self.slots);
        assert forall|q: NodeId| #[trigger] self.kids.contains_key(q) implies q != wrapper && q
            != new_id && without(self.kids[q], wrapper) == self.kids[q] && without(
            self.kids[q],
            new_id,
        ) == self.kids[q] by {
            assert(self.nodes.contains_key(q));
            let there = self.kids[q];
            if there.contains(wrapper) {
                let j = choose|j: int| 0 <= j < there.len() && there[j] == wrapper;
                assert(is_kid(self.kids, q, j, wrapper));
            }
            if there.contains(new_id) {
                let j = choose|j: int| 0 <= j < there.len() && there[j] == new_id;
                assert(is_kid(self.kids, q, j, new_id));
            }
            lemma_without_absent(there, wrapper);
            lemma_without_absent(there, new_id);
        }
        assert(c.kids =~= self.kids);
        assert(t.kids =~= self.kids);
        assert(t.nodes.dom() =~= self.nodes.dom());
        assert forall|x: NodeId| #[trigger] self.nodes.contains_key(x) implies shows_same(
            t.nodes[x],
            self.nodes[x],
            kids_of(self.kids, x),
        ) by {
            assert(x != wrapper && x != new_id);
            if parent is Some && (parent->0).0 == x {
                let there = kids_of(self.kids, x);
                assert(t.nodes[x] == node_child_swapped(
                    node_child_swapped(self.nodes[x], leaf, wrapper),
                    wrapper,
                    leaf,
                ));
                assert forall|i: int| 0 <= i < there.len() implies #[trigger] there[i]
                    != wrapper by {
                    assert(is_kid(self.kids, x, i, there[i]));
                    assert(self.nodes.contains_key(there[i]));
                }
            } else {
                assert(t.nodes[x] == self.nodes[x]);
            }
        }
    }

    /// The exit of a console that was spawned to wrap a leaf undoes the
    /// wrapping: the tree and every output are as they were, and so is all
    /// that shows of each node.
    pub proof fn law_exit_undoes_wrap(self, kind: WrapKind, hut: HutView, fresh: HutView)
        requires
            self.well_formed(),
            self.shares_numbered(),
            self.next_id + 2 <= u64::MAX,
            forall|x: NodeId| !#[trigger] is_console(self.nodes, x, hut.id),
        ensures
            ({
                let t = self.wrapped(kind, hut).exited(hut.id, fresh);
                &&& t.slots == self.slots
                &&& t.kids == self.kids
                &&& t.focused == self.focused
                &&& t.nodes.dom() == self.nodes.dom()
                &&& forall|x: NodeId| #[trigger]
                    self.nodes.contains_key(x) ==> shows_same(
                        t.nodes[x],
                        self.nodes[x],
                        kids_of(self.kids, x),
                    )
            }),
    {
        self.law_wrap_keeps_well_formed(kind, hut);
        let w = self.wrapped(kind, hut);
        let new_id = self.fresh_id();
        assert(!self.nodes.contains_key(new_id));
        let s1 = self.with_node(NodeView::Console(hut));
        let wrapper = s1.fresh_id();
        assert(!self.nodes.contains_key(wrapper));
        assert(new_id != wrapper);
        let f = self.focused as int;
        let o = self.out();
        assert(self.slots[f].current < self.slots[f].huts.len());
        let top = o.huts[o.current as int];
        assert(is_top(self.slots, f, o.current as int, top));
        self.law_focus_lands_on_a_console(top);
        assert(self.path(top) == s1.path(top)) by {
            let a = |i: NodeId| self.focus_step(i);
            let b = |i: NodeId| s1.focus_step(i);
            assert forall|i: NodeId| #[trigger] a(i) == b(i) by {}
            assert(a =~= b);
        }
        let path = self.path(top);
        let leaf = path.last();
        self.lemma_steps_to_children();
        let node = w.nodes[wrapper];
        let s2 = s1.with_node(node);
        let s3 = StackView { kids: s2.kids.insert(wrapper, seq![new_id, leaf]), ..s2 };
        if path.len() == 1 {
            assert(leaf == top);
            assert(w.nodes == s1.nodes.insert(wrapper, node));
            assert(is_top(w.slots, f, o.current as int, wrapper));
            w.lemma_top_reached(f, o.current as int, wrapper);
            assert(w.nodes.dom() =~= self.nodes.dom().insert(new_id).insert(wrapper));
            self.lemma_unwrapped(w, new_id, leaf, wrapper, None, (f, o.current as int));
        } else {
            let m = path.len() - 2;
            let g = path[m];
            assert(self.focus_step(path[m]) == Some(path[m + 1]));
            assert(self.nodes.contains_key(path[m]));
            let list = kids_of(self.kids, g);
            list.index_of_first_ensures(leaf);
            let at = list.index_of_first(leaf)->0;
            assert(is_kid(self.kids, g, at, leaf));
            assert(g != wrapper && g != new_id);
            assert(kids_of(s3.kids, g) == list);
            assert(w.kids =~= self.kids.insert(wrapper, seq![new_id, leaf]).insert(
                g,
                list.update(at, wrapper),
            ));
            assert(w.nodes.dom() =~= self.nodes.dom().insert(new_id).insert(wrapper));
            assert(is_top(w.slots, f, o.current as int, top));
            w.lemma_top_reached(f, o.current as int, top);
            assert forall|j: int| 0 <= j < m implies kids_of(w.kids, #[trigger] path[j]).contains(
                path[j + 1],
            ) by {
                assert(self.focus_step(path[j]) == Some(path[j + 1]));
                assert(self.nodes.contains_key(path[j]));
                if path[j] == g {
                    assert(path[j + 1] == leaf);
                    assert(self.focus_step(path[j + 1]) == Some(path[j + 1 + 1]));
                }
                assert(kids_of(self.kids, path[j]).contains(path[j + 1]));
            }
            w.lemma_chain_reached(path, m);
            assert(w.kids[g][at] == wrapper);
            w.lemma_kid_reached(g, wrapper);
            self.lemma_unwrapped(w, new_id, leaf, wrapper, Some((g, at)), (0, 0));
        }
        assert(w.kids[wrapper][0] == new_id);
        w.lemma_kid_reached(wrapper, new_id);
        assert(is_console(w.nodes, new_id, hut.id));
        lemma_first_console(w.nodes, w.all_ids(), hut.id);
        let id = first_console(w.nodes, w.all_ids(), hut.id)->0;
        assert(id == new_id) by {
            if id != new_id {
                assert(id != wrapper);
                assert(self.nodes.contains_key(id));
                assert(is_console(self.nodes, id, hut.id));
            }
        }
        lemma_first_slot(w.slots, new_id);
        assert(is_kid(w.kids, wrapper, 0, new_id));
        if first_slot_with(w.slots, new_id) < w.slots.len() {
            let i = first_slot_with(w.slots, new_id);
            let huts = w.slots[i].huts;
            let j = choose|j: int| 0 <= j < huts.len() && huts[j] == new_id;
            assert(is_top(w.slots, i, j, new_id));
        }
        w.lemma_without_console_keeps(new_id);
        w.lemma_output_of_bounds(hut.id, 0);
        let i = w.exit_output(hut.id, new_id);
        let t = w.without_console(new_id);
        assert(t.slots == self.slots);
        assert(self.slots[i].current < self.slots[i].huts.len());
        assert(t.settled(i).slots =~= self.slots);
    }

    proof fn lemma_swapped_shares(self, p: NodeId, old_id: NodeId, new_id: NodeId)
        requires
            self.shares_numbered(),
            new_id.0 < self.next_id,
        ensures
            self.child_swapped(p, old_id, new_id).shares_numbered(),
            self.child_swapped(p, old_id, new_id).next_id == self.next_id,
    {
        let t = self.child_swapped(p, old_id, new_id);
        assert forall|q: NodeId, x: NodeId|
            #![trigger t.nodes.contains_key(q), t.nodes[q]->fracs.contains_key(x)]
            t.nodes.contains_key(q) && t.nodes[q] is Tile && t.nodes[q]->fracs.contains_key(
                x,
            ) implies x.0 < t.next_id by {
            assert(self.nodes.contains_key(q) && self.nodes[q] is Tile);
            if x != new_id {
                assert(self.nodes[q]->fracs.contains_key(x));
            }
        }
    }

    proof fn lemma_all_swapped_shares(self, ids: Seq<NodeId>, old_id: NodeId, new_id: NodeId)
        requires
            self.shares_numbered(),
            new_id.0 < self.next_id,
        ensures
            self.children_swapped(ids, old_id, new_id).shares_numbered(),
            self.children_swapped(ids, old_id, new_id).next_id == self.next_id,
        decreases ids.len(),
    {
        if ids.len() > 0 {
            self.lemma_all_swapped_shares(ids.drop_last(), old_id, new_id);
            self.children_swapped(ids.drop_last(), old_id, new_id).lemma_swapped_shares(
                ids.last(),
                old_id,
                new_id,
            );
        }
    }

    proof fn lemma_fewer_shares(self, t: StackView)
        requires
            self.shares_numbered(),
            self.next_id <= t.next_id,
            forall|p: NodeId| #[trigger]
                t.nodes.contains_key(p) && t.nodes[p] is Tile ==> self.nodes.contains_key(p)
                    && self.nodes[p] is Tile && t.nodes[p]->fracs.submap_of(self.nodes[p]->fracs),
        ensures
            t.shares_numbered(),
    {
        assert forall|q: NodeId, x: NodeId|
            #![trigger t.nodes.contains_key(q), t.nodes[q]->fracs.contains_key(x)]
            t.nodes.contains_key(q) && t.nodes[q] is Tile && t.nodes[q]->fracs.contains_key(
                x,
            ) implies x.0 < t.next_id by {
            assert(self.nodes.contains_key(q));
            assert(self.nodes[q]->fracs.contains_key(x));
        }
    }

    /// Wrapping a leaf keeps shares only for nodes that were handed out.
    pub proof fn law_wrap_keeps_shares_numbered(self, kind: WrapKind, hut: HutView)
        requires
            self.well_formed(),
            self.shares_numbered(),
            self.next_id + 2 <= u64::MAX,
        ensures
            self.wrapped(kind, hut).shares_numbered(),
    {
        let s1 = self.with_node(NodeView::Console(hut));
        let o = self.out();
        let f = self.focused as int;
        assert(self.slots[f].current < self.slots[f].huts.len());
        let top = o.huts[o.current as int];
        assert(is_top(self.slots, f, o.current as int, top));
        self.law_focus_lands_on_a_console(top);
        assert(!self.nodes.contains_key(self.fresh_id()));
        assert(self.path(top) == s1.path(top)) by {
            let a = |i: NodeId| self.focus_step(i);
            let b = |i: NodeId| s1.focus_step(i);
            assert forall|i: NodeId| #[trigger] a(i) == b(i) by {}
            assert(a =~= b);
        }
        let path = s1.path(top);
        let leaf = path.last();
        assert(self.nodes.contains_key(leaf));
        let wrapper = s1.fresh_id();
        let node = match kind {
            WrapKind::Tab => NodeView::Tab { active: 1, chrome: Map::empty() },
            WrapKind::Tile(axis) => NodeView::Tile {
                axis,
                active: 1,
                fracs: Map::empty().insert(self.fresh_id(), HALF_FRAC).insert(leaf, HALF_FRAC),
            },
        };
        let s2 = s1.with_node(node);
        let s3 = StackView { kids: s2.kids.insert(wrapper, seq![self.fresh_id(), leaf]), ..s2 };
        assert(s3.shares_numbered()) by {
            assert forall|q: NodeId, x: NodeId|
                #![trigger s3.nodes.contains_key(q), s3.nodes[q]->fracs.contains_key(x)]
                s3.nodes.contains_key(q) && s3.nodes[q] is Tile
                    && s3.nodes[q]->fracs.contains_key(x) implies x.0 < s3.next_id by {
                if q != wrapper {
                    assert(self.nodes.contains_key(q));
                    assert(self.nodes[q]->fracs.contains_key(x));
                }
            }
        }
        if path.len() == 1 {
            s3.lemma_fewer_shares(self.wrapped(kind, hut));
        } else {
            s3.lemma_swapped_shares(path[path.len() - 2], leaf, wrapper);
        }
    }

    /// The exit of a console keeps shares only for nodes that were handed out.
    pub proof fn law_exit_keeps_shares_numbered(self, hut: u64, fresh: HutView)
        requires
            self.well_formed(),
            self.shares_numbered(),
            self.exit_spawns(hut) ==> self.next_id < u64::MAX,
        ensures
            self.exited(hut, fresh).shares_numbered(),
    {
        lemma_first_console(self.nodes, self.all_ids(), hut);
        if let Some(id) = first_console(self.nodes, self.all_ids(), hut) {
            lemma_first_slot(self.slots, id);
            self.lemma_output_of_bounds(hut, 0);
            self.lemma_without_console_keeps(id);
            let s = self.without_console(id);
            if first_slot_with(self.slots, id) < self.slots.len() {
                self.lemma_fewer_shares(s);
            } else {
                let c = self.child_removed(id);
                lemma_first_parent(self.kids, self.all_ids(), id);
                if let Some(parent) = first_parent(self.kids, self.all_ids(), id) {
                    let list = self.kids[parent];
                    list.index_of_first_ensures(id);
                    let at = list.index_of_first(id)->0;
                    let rest = list.remove(at);
                    if rest.len() == 1 {
                        let sj = if at == 0 {
                            1int
                        } else {
                            0int
                        };
                        assert(is_kid(self.kids, parent, sj, rest[0]));
                        assert(self.nodes.contains_key(rest[0]));
                        let swapped = self.tops_swapped(parent, rest[0]);
                        self.lemma_fewer_shares(swapped);
                        swapped.lemma_all_swapped_shares(swapped.all_ids(), parent, rest[0]);
                        self.repointed(parent, rest[0]).lemma_fewer_shares(c);
                    } else {
                        self.lemma_fewer_shares(c);
                    }
                }
                c.lemma_fewer_shares(s);
            }
            s.lemma_fewer_shares(self.exited(hut, fresh));
        }
    }
}

} // verus!
