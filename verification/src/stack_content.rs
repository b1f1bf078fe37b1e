//! What of a stack of Huts is drawn.
use vstd::prelude::*;

use crate::console_hut::HutView;
use crate::graph::{law_path_unfolds, NodeId};
use crate::graph_nodes::{entry_at, HutNode, NodeView};
use crate::graph_stack::{node_views, GraphStack, Resolved};
use crate::stack_exit::{lemma_concat_contains, lemma_subtree_contains, lemma_subtrees_contains};
use crate::stack_model::{consoles, StackView};
use crate::tree::{
    acyclic, kids_of, law_subtree_unfolds, lemma_step_ends, ranked, some_rank, subtree, subtrees, Kids,
};

verus! {

impl StackView {
    /// The children whose content the content of `id` is made of: the active
    /// one of a Tab node, every one of a Tile node.
    pub open spec fn shown_of(self, id: NodeId) -> Seq<NodeId> {
        if self.nodes.contains_key(id) {
            match self.nodes[id] {
                NodeView::Console(_) => Seq::empty(),
                NodeView::Tab { active, .. } => match entry_at(
                    kids_of(self.kids, id),
                    active as int,
                ) {
                    Some(child) => seq![child],
                    None => Seq::empty(),
                },
                NodeView::Tile { .. } => kids_of(self.kids, id),
            }
        } else {
            Seq::empty()
        }
    }

    /// The children that are drawn, of each node.
    pub open spec fn shown_kids(self) -> Kids {
        Map::new(|id: NodeId| self.kids.contains_key(id), |id: NodeId| self.shown_of(id))
    }

    /// The nodes whose content is asked for when `top` is drawn, each before
    /// those it shows.
    pub open spec fn content(self, top: NodeId) -> Seq<NodeId> {
        subtree(self.shown_kids(), top)
    }

    proof fn lemma_shown_kids(self)
        requires
            acyclic(self.kids),
        ensures
            acyclic(self.shown_kids()),
            forall|id: NodeId| #[trigger]
                kids_of(self.shown_kids(), id) == self.shown_of(id),
    {
        let rank = some_rank(self.kids);
        assert(ranked(self.kids, rank));
        let k = self.shown_kids();
        assert forall|p: NodeId, i: int| k.contains_key(p) && 0 <= i < k[p].len() implies rank(
            #[trigger] k[p][i],
        ) < rank(p) by {
            if self.nodes[p] is Tab {
                let active = self.nodes[p]->Tab_active as int;
                assert(k[p][i] == self.kids[p][active]);
            } else {
                assert(k[p][i] == self.kids[p][i]);
            }
        }
        assert(ranked(k, rank));
        assert forall|id: NodeId| #[trigger] kids_of(k, id) == self.shown_of(id) by {
            if !k.contains_key(id) {
                assert(self.shown_of(id) =~= Seq::empty());
            }
        }
    }
}

/// A Tab node draws its active child and nothing of the others, a Tile node
/// draws every pane, and a console draws itself.
pub proof fn law_content_unfolds(s: StackView, top: NodeId)
    requires
        acyclic(s.kids),
        s.nodes.contains_key(top),
    ensures
        match s.nodes[top] {
            NodeView::Console(_) => s.content(top) == seq![top],
            NodeView::Tab { active, .. } => match entry_at(kids_of(s.kids, top), active as int) {
                Some(child) => s.content(top) == seq![top] + s.content(child),
                None => s.content(top) == seq![top],
            },
            NodeView::Tile { .. } => s.content(top) == seq![top] + subtrees(
                s.shown_kids(),
                kids_of(s.kids, top),
            ),
        },
{
    s.lemma_shown_kids();
    let k = s.shown_kids();
    law_subtree_unfolds(k, top);
    let shown = kids_of(k, top);
    assert(shown == s.shown_of(top));
    if shown.len() == 0 {
        assert(subtrees(k, shown) =~= Seq::empty());
        assert(s.content(top) =~= seq![top]);
        if s.nodes[top] is Tile {
            assert(shown =~= kids_of(s.kids, top));
        }
    } else if s.nodes[top] is Tab {
        assert(shown.drop_last() =~= Seq::empty());
        assert(subtrees(k, shown.drop_last()) =~= Seq::empty());
        assert(subtrees(k, shown) =~= subtree(k, shown[0]));
    }
}

/// Everything on the way that focus takes is drawn: what has the keyboard is
/// always on screen.
pub proof fn law_focus_path_is_drawn(s: StackView, top: NodeId)
    requires
        acyclic(s.kids),
    ensures
        forall|i: int|
            0 <= i < s.path(top).len() ==> s.content(top).contains(#[trigger] s.path(top)[i]),
    decreases some_rank(s.kids)(top),
{
    let step = |i: NodeId| s.focus_step(i);
    let rank = some_rank(s.kids);
    assert(ranked(s.kids, rank));
    s.lemma_steps_to_children();
    lemma_step_ends(s.kids, step, top);
    law_path_unfolds(step, top);
    s.lemma_shown_kids();
    let k = s.shown_kids();
    lemma_subtree_contains(k, top, top);
    match step(top) {
        None => {},
        Some(next) => {
            let j = choose|j: int|
                0 <= j < kids_of(s.kids, top).len() && kids_of(s.kids, top)[j] == next;
            assert(rank(s.kids[top][j]) < rank(top));
            law_focus_path_is_drawn(s, next);
            let shown = s.shown_of(top);
            let at: int = if s.nodes[top] is Tab {
                0
            } else {
                s.nodes[top]->Tile_active as int
            };
            assert(shown[at] == next);
            assert(kids_of(k, top)[at] == next);
            assert forall|i: int| 0 <= i < s.path(top).len() implies s.content(top).contains(
                #[trigger] s.path(top)[i],
            ) by {
                if i > 0 {
                    let x = s.path(next)[i - 1];
                    assert(s.path(top)[i] == x);
                    assert(s.content(next).contains(x));
                    lemma_subtree_contains(k, top, x);
                }
            }
        },
    }
}

/// Only what hangs under `top` is drawn for it.
pub proof fn law_content_is_under_top(s: StackView, top: NodeId, x: NodeId)
    requires
        acyclic(s.kids),
        s.content(top).contains(x),
    ensures
        subtree(s.kids, top).contains(x),
    decreases some_rank(s.kids)(top),
{
    let rank = some_rank(s.kids);
    assert(ranked(s.kids, rank));
    s.lemma_shown_kids();
    let k = s.shown_kids();
    lemma_subtree_contains(k, top, x);
    lemma_subtree_contains(s.kids, top, x);
    if x != top {
        let j = choose|j: int|
            0 <= j < kids_of(k, top).len() && subtree(k, #[trigger] kids_of(k, top)[j]).contains(x);
        let child = kids_of(k, top)[j];
        assert(child == s.shown_of(top)[j]);
        let at: int = if s.nodes[top] is Tab {
            s.nodes[top]->Tab_active as int
        } else {
            j
        };
        assert(kids_of(s.kids, top)[at] == child);
        assert(rank(s.kids[top][at]) < rank(top));
        law_content_is_under_top(s, child, x);
    }
}

/// What the frame remembers the content of a node under.
pub open spec fn content_key(id: NodeId) -> (NodeId, Seq<char>) {
    (id, "content"@)
}

impl StackView {
    /// The children whose content is asked for, of each node: none where the
    /// frame remembers the node's own content.
    pub open spec fn asked_kids(self, kept: Resolved) -> Kids {
        Map::new(
            |id: NodeId| self.kids.contains_key(id),
            |id: NodeId|
                if kept.contains_key(content_key(id)) {
                    Seq::empty()
                } else {
                    self.shown_of(id)
                },
        )
    }

    /// What a node adds to the content: what the frame remembers of it, or
    /// itself if it is a console.
    pub open spec fn own_content(self, kept: Resolved, id: NodeId) -> Seq<u64> {
        if kept.contains_key(content_key(id)) {
            kept[content_key(id)]
        } else if self.nodes.contains_key(id) && self.nodes[id] is Console {
            seq![(self.nodes[id]->Console_0).id]
        } else {
            Seq::empty()
        }
    }

    /// What these nodes add to the content, one after the other.
    pub open spec fn gathered(self, kept: Resolved, ids: Seq<NodeId>) -> Seq<u64>
        decreases ids.len(),
    {
        if ids.len() == 0 {
            Seq::empty()
        } else {
            self.gathered(kept, ids.drop_last()) + self.own_content(kept, ids.last())
        }
    }

    /// The consoles, by number, that the content of a node is made of, in a
    /// frame that remembers `kept`.
    pub open spec fn content_in_frame(self, kept: Resolved, id: NodeId) -> Seq<u64> {
        self.gathered(kept, subtree(self.asked_kids(kept), id))
    }

    /// What a frame that remembered `kept` remembers once these nodes were
    /// asked for their content.
    pub open spec fn remembered(self, kept: Resolved, asked: Seq<NodeId>) -> Resolved {
        Map::new(
            |k: (NodeId, Seq<char>)|
                kept.contains_key(k) || (k == content_key(k.0) && self.nodes.contains_key(k.0)
                    && asked.contains(k.0)),
            |k: (NodeId, Seq<char>)|
                if kept.contains_key(k) {
                    kept[k]
                } else {
                    self.content_in_frame(kept, k.0)
                },
        )
    }

    /// What a frame that remembered `kept` remembers once the content of a
    /// node was resolved.
    pub open spec fn resolved_in_frame(self, kept: Resolved, id: NodeId) -> Resolved {
        self.remembered(kept, subtree(self.asked_kids(kept), id))
    }

    /// Whether `more` is what a frame that remembered `kept` may remember
    /// later, nothing of the stack having changed: the content of some more
    /// nodes, each with all that it was made of.
    spec fn later(self, kept: Resolved, more: Resolved) -> bool {
        &&& forall|k: (NodeId, Seq<char>)| #[trigger]
            kept.contains_key(k) ==> more.contains_key(k) && more[k] == kept[k]
        &&& forall|k: (NodeId, Seq<char>)| #[trigger]
            more.contains_key(k) && !kept.contains_key(k) ==> k == content_key(k.0)
                && self.nodes.contains_key(k.0) && more[k] == self.content_in_frame(kept, k.0)
        &&& forall|x: NodeId, y: NodeId|
            more.contains_key(content_key(x)) && !kept.contains_key(content_key(x))
                && #[trigger] subtree(self.asked_kids(kept), x).contains(y)
                && self.nodes.contains_key(y) ==> more.contains_key(content_key(y))
    }

    proof fn lemma_asked_kids(self, kept: Resolved)
        requires
            acyclic(self.kids),
        ensures
            ranked(self.asked_kids(kept), some_rank(self.kids)),
            acyclic(self.asked_kids(kept)),
            forall|id: NodeId| #[trigger]
                kids_of(self.asked_kids(kept), id) == (if kept.contains_key(content_key(id)) {
                    Seq::empty()
                } else {
                    self.shown_of(id)
                }),
            forall|p: NodeId, i: int|
                0 <= i < self.shown_of(p).len() ==> some_rank(self.kids)(
                    #[trigger] self.shown_of(p)[i],
                ) < some_rank(self.kids)(p),
    {
        let rank = some_rank(self.kids);
        assert(ranked(self.kids, rank));
        let k = self.asked_kids(kept);
        assert forall|p: NodeId, i: int| 0 <= i < self.shown_of(p).len() implies rank(
            #[trigger] self.shown_of(p)[i],
        ) < rank(p) by {
            let at: int = if self.nodes[p] is Tab {
                self.nodes[p]->Tab_active as int
            } else {
                i
            };
            assert(self.shown_of(p)[i] == self.kids[p][at]);
        }
        assert(ranked(k, rank));
        assert forall|id: NodeId| #[trigger]
            kids_of(k, id) == (if kept.contains_key(content_key(id)) {
                Seq::empty()
            } else {
                self.shown_of(id)
            }) by {
            if !k.contains_key(id) {
                assert(self.shown_of(id) =~= Seq::empty());
            }
        }
    }

    proof fn lemma_gathered_concat(self, kept: Resolved, a: Seq<NodeId>, b: Seq<NodeId>)
        ensures
            self.gathered(kept, a + b) == self.gathered(kept, a) + self.gathered(kept, b),
        decreases b.len(),
    {
        if b.len() == 0 {
            assert(a + b =~= a);
            assert(self.gathered(kept, b) =~= Seq::empty());
        } else {
            self.lemma_gathered_concat(kept, a, b.drop_last());
            assert((a + b).drop_last() =~= a + b.drop_last());
            assert((a + b).last() == b.last());
            assert(self.gathered(kept, a + b) =~= self.gathered(kept, a) + self.gathered(kept, b));
        }
    }

    /// The content of a node is its own, followed by that of the children it
    /// asks.
    proof fn lemma_content_unfolds(self, kept: Resolved, id: NodeId)
        requires
            acyclic(self.kids),
        ensures
            self.content_in_frame(kept, id) == self.own_content(kept, id) + self.gathered(
                kept,
                subtrees(
                    self.asked_kids(kept),
                    kids_of(self.asked_kids(kept), id),
                ),
            ),
    {
        self.lemma_asked_kids(kept);
        let k = self.asked_kids(kept);
        law_subtree_unfolds(k, id);
        self.lemma_gathered_concat(kept, seq![id], subtrees(k, kids_of(k, id)));
        assert(seq![id].drop_last() =~= Seq::empty());
        assert(self.gathered(kept, seq![id].drop_last()) =~= Seq::empty());
        assert(self.gathered(kept, seq![id]) =~= self.own_content(kept, id));
    }

    /// Remembering more changes no content.
    proof fn lemma_same_content(self, kept: Resolved, more: Resolved, id: NodeId)
        requires
            acyclic(self.kids),
            self.later(kept, more),
        ensures
            self.content_in_frame(more, id) == self.content_in_frame(kept, id),
        decreases some_rank(self.kids)(id), self.shown_of(id).len() + 1,
    {
        self.lemma_asked_kids(kept);
        self.lemma_asked_kids(more);
        self.lemma_content_unfolds(kept, id);
        self.lemma_content_unfolds(more, id);
        let k = self.asked_kids(kept);
        let m = self.asked_kids(more);
        let key = content_key(id);
        if kept.contains_key(key) {
            assert(kids_of(k, id) =~= Seq::empty());
            assert(kids_of(m, id) =~= Seq::empty());
            assert(subtrees(k, kids_of(k, id)) =~= subtrees(m, kids_of(m, id)));
            assert(self.gathered(more, subtrees(m, kids_of(m, id))) =~= self.gathered(
                kept,
                subtrees(k, kids_of(k, id)),
            ));
        } else if more.contains_key(key) {
            assert(kids_of(m, id) =~= Seq::empty());
            assert(subtrees(m, kids_of(m, id)) =~= Seq::empty());
            assert(self.content_in_frame(more, id) =~= more[key]);
        } else {
            let ids = self.shown_of(id);
            assert forall|i: int| 0 <= i < ids.len() implies some_rank(self.kids)(#[trigger] ids[i])
                < some_rank(self.kids)(id) by {
                assert(ids[i] == self.shown_of(id)[i]);
            }
            self.lemma_same_contents(kept, more, ids, id);
        }
    }

    proof fn lemma_same_contents(
        self,
        kept: Resolved,
        more: Resolved,
        ids: Seq<NodeId>,
        parent: NodeId,
    )
        requires
            acyclic(self.kids),
            self.later(kept, more),
            forall|i: int|
                0 <= i < ids.len() ==> some_rank(self.kids)(#[trigger] ids[i]) < some_rank(
                    self.kids,
                )(parent),
        ensures
            self.gathered(more, subtrees(self.asked_kids(more), ids)) == self.gathered(
                kept,
                subtrees(self.asked_kids(kept), ids),
            ),
        decreases some_rank(self.kids)(parent), ids.len(),
    {
        let k = self.asked_kids(kept);
        let m = self.asked_kids(more);
        if ids.len() == 0 {
            assert(subtrees(k, ids) =~= Seq::empty());
            assert(subtrees(m, ids) =~= Seq::empty());
        } else {
            let t = ids.drop_last();
            assert(some_rank(self.kids)(ids[ids.len() - 1]) < some_rank(self.kids)(parent));
            assert forall|i: int| 0 <= i < t.len() implies some_rank(self.kids)(#[trigger] t[i])
                < some_rank(self.kids)(parent) by {
                assert(t[i] == ids[i]);
            }
            self.lemma_same_contents(kept, more, t, parent);
            self.lemma_same_content(kept, more, ids.last());
            self.lemma_gathered_concat(kept, subtrees(k, t), subtree(k, ids.last()));
            self.lemma_gathered_concat(more, subtrees(m, t), subtree(m, ids.last()));
        }
    }

    /// Remembering more asks no other node, and leaves out just nodes that are
    /// remembered.
    proof fn lemma_same_asked(self, kept: Resolved, more: Resolved, id: NodeId, x: NodeId)
        requires
            acyclic(self.kids),
            self.later(kept, more),
        ensures
            subtree(self.asked_kids(more), id).contains(x) ==> subtree(
                self.asked_kids(kept),
                id,
            ).contains(x),
            subtree(self.asked_kids(kept), id).contains(x) && self.nodes.contains_key(x)
                ==> more.contains_key(content_key(x)) || subtree(
                self.asked_kids(more),
                id,
            ).contains(x),
        decreases some_rank(self.kids)(id),
    {
        self.lemma_asked_kids(kept);
        self.lemma_asked_kids(more);
        let k = self.asked_kids(kept);
        let m = self.asked_kids(more);
        lemma_subtree_contains(k, id, x);
        lemma_subtree_contains(m, id, x);
        let key = content_key(id);
        assert(kept.contains_key(key) ==> more.contains_key(key));
        if x != id && !more.contains_key(key) {
            let ids = self.shown_of(id);
            assert forall|j: int| 0 <= j < ids.len() implies {
                &&& subtree(m, #[trigger] ids[j]).contains(x) ==> subtree(k, ids[j]).contains(x)
                &&& subtree(k, ids[j]).contains(x) && self.nodes.contains_key(x)
                    ==> more.contains_key(content_key(x)) || subtree(m, ids[j]).contains(x)
            } by {
                assert(some_rank(self.kids)(self.shown_of(id)[j]) < some_rank(self.kids)(id));
                self.lemma_same_asked(kept, more, ids[j], x);
            }
            assert(kids_of(k, id) == ids);
            assert(kids_of(m, id) == ids);
            if subtree(m, id).contains(x) {
                let j = choose|j: int|
                    0 <= j < kids_of(m, id).len() && subtree(m, #[trigger] kids_of(m, id)[j]).contains(
                        x,
                    );
                assert(subtree(k, kids_of(k, id)[j]).contains(x));
            }
            if subtree(k, id).contains(x) && self.nodes.contains_key(x) {
                let j = choose|j: int|
                    0 <= j < kids_of(k, id).len() && subtree(k, #[trigger] kids_of(k, id)[j]).contains(
                        x,
                    );
                assert(subtree(k, ids[j]).contains(x));
                if !more.contains_key(content_key(x)) {
                    assert(subtree(m, kids_of(m, id)[j]).contains(x));
                }
            }
        } else if x != id {
            assert(kids_of(m, id) =~= Seq::empty());
        }
    }

    /// What is asked on behalf of something asked is asked.
    proof fn lemma_asked_on(self, kept: Resolved, id: NodeId, x: NodeId, y: NodeId)
        requires
            acyclic(self.kids),
            subtree(self.asked_kids(kept), id).contains(x),
            subtree(self.asked_kids(kept), x).contains(y),
        ensures
            subtree(self.asked_kids(kept), id).contains(y),
        decreases some_rank(self.kids)(id),
    {
        self.lemma_asked_kids(kept);
        let k = self.asked_kids(kept);
        lemma_subtree_contains(k, id, x);
        lemma_subtree_contains(k, id, y);
        if x != id {
            let j = choose|j: int|
                0 <= j < kids_of(k, id).len() && subtree(k, #[trigger] kids_of(k, id)[j]).contains(x);
            assert(some_rank(self.kids)(k[id][j]) < some_rank(self.kids)(id));
            self.lemma_asked_on(kept, kids_of(k, id)[j], x, y);
        }
    }

    proof fn lemma_remembered_later(self, kept: Resolved, ids: Seq<NodeId>)
        requires
            acyclic(self.kids),
        ensures
            self.later(kept, self.remembered(kept, subtrees(self.asked_kids(kept), ids))),
    {
        let k = self.asked_kids(kept);
        let more = self.remembered(kept, subtrees(k, ids));
        assert forall|x: NodeId, y: NodeId|
            more.contains_key(content_key(x)) && !kept.contains_key(content_key(x))
                && #[trigger] subtree(k, x).contains(y) && self.nodes.contains_key(
                y,
            ) implies more.contains_key(content_key(y)) by {
            lemma_subtrees_contains(k, ids, x);
            lemma_subtrees_contains(k, ids, y);
            let j = choose|j: int|
                0 <= j < ids.len() && subtree(k, #[trigger] ids[j]).contains(x);
            self.lemma_asked_on(kept, ids[j], x, y);
        }
    }

    /// Asking one node after others have been asked.
    proof fn lemma_asked_next(self, kept: Resolved, ids: Seq<NodeId>, id: NodeId)
        requires
            acyclic(self.kids),
        ensures
            ({
                let k = self.asked_kids(kept);
                let more = self.remembered(kept, subtrees(k, ids));
                &&& self.content_in_frame(more, id) == self.content_in_frame(kept, id)
                &&& self.resolved_in_frame(more, id) == self.remembered(
                    kept,
                    subtrees(k, ids.push(id)),
                )
            }),
    {
        let k = self.asked_kids(kept);
        let more = self.remembered(kept, subtrees(k, ids));
        let m = self.asked_kids(more);
        self.lemma_remembered_later(kept, ids);
        self.lemma_same_content(kept, more, id);
        let t = ids.push(id);
        assert(t.drop_last() =~= ids);
        let after = self.resolved_in_frame(more, id);
        let wanted = self.remembered(kept, subtrees(k, t));
        assert forall|key: (NodeId, Seq<char>)|
            #![trigger after.contains_key(key)]
            #![trigger wanted.contains_key(key)]
            after.contains_key(key) == wanted.contains_key(key) && (after.contains_key(key)
                ==> after[key] == wanted[key]) by {
            let x = key.0;
            lemma_subtrees_contains(k, ids, x);
            lemma_subtrees_contains(k, t, x);
            self.lemma_same_asked(kept, more, id, x);
            self.lemma_same_content(kept, more, x);
            assert(t[ids.len() as int] == id);
            if subtrees(k, t).contains(x) && !subtree(k, id).contains(x) {
                let j = choose|j: int| 0 <= j < t.len() && subtree(k, #[trigger] t[j]).contains(x);
                assert(ids[j] == t[j]);
            }
            if subtrees(k, ids).contains(x) {
                let j = choose|j: int|
                    0 <= j < ids.len() && subtree(k, #[trigger] ids[j]).contains(x);
                assert(t[j] == ids[j]);
            }
        }
        assert(after =~= wanted);
    }
}

/// The first time in a frame, the content of a node is what it shows.
pub proof fn law_fresh_content_is_what_is_shown(s: StackView, top: NodeId)
    requires
        acyclic(s.kids),
    ensures
        s.content_in_frame(Map::empty(), top) == consoles(s.nodes, s.content(top)).map_values(
            |h: HutView| h.id,
        ),
{
    assert(s.asked_kids(Map::empty()) =~= s.shown_kids());
    lemma_gathered_fresh(s, s.content(top));
}

proof fn lemma_gathered_fresh(s: StackView, ids: Seq<NodeId>)
    ensures
        s.gathered(Map::empty(), ids) == consoles(s.nodes, ids).map_values(|h: HutView| h.id),
    decreases ids.len(),
{
    if ids.len() > 0 {
        lemma_gathered_fresh(s, ids.drop_last());
    }
    assert(s.gathered(Map::empty(), ids) =~= consoles(s.nodes, ids).map_values(
        |h: HutView| h.id,
    ));
}

/// Content that was resolved in a frame is the same for the rest of it,
/// whatever the stack has become meanwhile.
pub proof fn law_content_stays_for_the_frame(
    before: StackView,
    after: StackView,
    kept: Resolved,
    top: NodeId,
)
    requires
        acyclic(before.kids),
        acyclic(after.kids),
        before.nodes.contains_key(top),
    ensures
        ({
            let then = before.resolved_in_frame(kept, top);
            &&& after.content_in_frame(then, top) == before.content_in_frame(kept, top)
            &&& after.resolved_in_frame(then, top) == then
        }),
{
    let then = before.resolved_in_frame(kept, top);
    before.lemma_asked_kids(kept);
    lemma_subtree_contains(before.asked_kids(kept), top, top);
    before.lemma_content_unfolds(kept, top);
    assert(then.contains_key(content_key(top)));
    after.lemma_asked_kids(then);
    let k = after.asked_kids(then);
    after.lemma_content_unfolds(then, top);
    assert(kids_of(k, top) =~= Seq::empty());
    assert(subtrees(k, kids_of(k, top)) =~= Seq::empty());
    law_subtree_unfolds(k, top);
    assert(subtree(k, top) =~= seq![top]);
    if kept.contains_key(content_key(top)) {
        let b = before.asked_kids(kept);
        assert(kids_of(b, top) =~= Seq::empty());
        assert(subtrees(b, kids_of(b, top)) =~= Seq::empty());
        assert(before.content_in_frame(kept, top) =~= kept[content_key(top)]);
    }
    assert(after.content_in_frame(then, top) =~= before.content_in_frame(kept, top));
    assert(after.resolved_in_frame(then, top) =~= then);
}

fn copied_numbers(v: &Vec<u64>) -> (r: Vec<u64>)
    ensures
        r@ == v@,
{
    let mut out: Vec<u64> = Vec::new();
    for i in 0..v.len()
        invariant
            out@ == v@.take(i as int),
    {
        out.push(v[i]);
        assert(out@ =~= v@.take(i + 1));
    }
    assert(v@.take(v@.len() as int) =~= v@);
    out
}

impl GraphStack {
    /// The children whose content the content of a node is made of.
    fn shown_children(&self, id: NodeId) -> (r: Vec<NodeId>)
        ensures
            r@ == self@.shown_of(id),
    {
        let graph = self.graph();
        assert(graph@.hut_list(id, "children"@) =~= kids_of(self@.kids, id));
        match graph.node(id) {
            Some(HutNode::Tab(tab)) => {
                assert(self@.nodes[id] == graph@.nodes[id]@);
                tab.shown(graph, id)
            },
            Some(HutNode::Tile(tile)) => {
                assert(self@.nodes[id] == graph@.nodes[id]@);
                tile.shown(graph, id)
            },
            Some(HutNode::Console(_)) => {
                assert(self@.nodes[id] == graph@.nodes[id]@);
                Vec::new()
            },
            None => {
                assert(!node_views(graph@.nodes).contains_key(id));
                Vec::new()
            },
        }
    }

    /// The consoles, by number, that make up what `top` shows: the one behind
    /// a Tab node's active child, those of every pane of a Tile node. What was
    /// resolved since the last [`Self::begin_frame`] is handed out again.
    pub fn resolve_content(&mut self, top: NodeId) -> (r: Vec<u64>)
        requires
            acyclic(old(self)@.kids),
        ensures
            r@ == old(self)@.content_in_frame(old(self).resolved(), top),
            final(self)@ == old(self)@,
            final(self).focus_synced() == old(self).focus_synced(),
            final(self).resolved() == old(self)@.resolved_in_frame(old(self).resolved(), top),
        decreases some_rank(old(self)@.kids)(top),
    {
        let ghost s = self@;
        let ghost kept = self.resolved();
        let ghost k = s.asked_kids(kept);
        proof {
            s.lemma_asked_kids(kept);
            s.lemma_content_unfolds(kept, top);
            law_subtree_unfolds(k, top);
        }
        let known = match self.graph().kept(top, "content") {
            Some(known) => Some(copied_numbers(known)),
            None => None,
        };
        if let Some(known) = known {
            proof {
                assert(kids_of(k, top) =~= Seq::empty());
                assert(subtrees(k, kids_of(k, top)) =~= Seq::empty());
                assert(subtree(k, top) =~= seq![top]);
                assert(known@ =~= s.content_in_frame(kept, top));
                assert(s.resolved_in_frame(kept, top) =~= kept);
            }
            return known;
        }
        let mut out: Vec<u64> = Vec::new();
        let there = match self.graph().node(top) {
            Some(HutNode::Console(hut)) => {
                out.push(hut.id());
                true
            },
            Some(_) => true,
            None => false,
        };
        let shown = self.shown_children(top);
        proof {
            assert(there == s.nodes.contains_key(top));
            assert(shown@ == kids_of(k, top));
            assert(out@ =~= s.own_content(kept, top));
            assert(shown@.take(0) =~= Seq::empty());
            assert(subtrees(k, shown@.take(0)) =~= Seq::empty());
            assert(s.gathered(kept, Seq::empty()) =~= Seq::empty());
            assert(s.remembered(kept, subtrees(k, shown@.take(0))) =~= kept);
        }
        if !there {
            proof {
                assert(subtree(k, top) =~= seq![top]);
                assert(out@ =~= s.content_in_frame(kept, top));
                assert(s.resolved_in_frame(kept, top) =~= kept);
            }
            return out;
        }
        for i in 0..shown.len()
            invariant
                acyclic(s.kids),
                s == old(self)@,
                kept == old(self).resolved(),
                k == s.asked_kids(kept),
                ranked(k, some_rank(s.kids)),
                shown@ == kids_of(k, top),
                self@ == s,
                self.focus_synced() == old(self).focus_synced(),
                self.resolved() == s.remembered(kept, subtrees(k, shown@.take(i as int))),
                out@ == s.own_content(kept, top) + s.gathered(
                    kept,
                    subtrees(k, shown@.take(i as int)),
                ),
        {
            let ghost t = shown@.take(i as int);
            proof {
                assert(some_rank(s.kids)(k[top][i as int]) < some_rank(s.kids)(top));
                s.lemma_asked_next(kept, t, shown@[i as int]);
                assert(shown@.take(i + 1) =~= t.push(shown@[i as int]));
                s.lemma_gathered_concat(kept, subtrees(k, t), subtree(k, shown@[i as int]));
                assert(t.push(shown@[i as int]).drop_last() =~= t);
            }
            let mut pieces = self.resolve_content(shown[i]);
            out.append(&mut pieces);
            assert(out@ =~= s.own_content(kept, top) + s.gathered(
                kept,
                subtrees(k, shown@.take(i + 1)),
            ));
        }
        assert(shown@.take(shown@.len() as int) =~= shown@);
        let value = copied_numbers(&out);
        self.remember_content(top, value);
        proof {
            let asked = subtree(k, top);
            let below = subtrees(k, shown@);
            assert(asked == seq![top] + below);
            assert forall|x: NodeId| #[trigger] asked.contains(x) <==> x == top || below.contains(
                x,
            ) by {
                lemma_concat_contains(seq![top], below, x);
                assert(seq![top][0] == top);
            }
            assert(self.resolved() =~= s.resolved_in_frame(kept, top));
        }
        out
    }
}

} // verus!
