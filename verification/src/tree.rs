//! The shape of a graph of Huts: which nodes hang under which, in what order
//! they are visited, and why a visit comes to an end.
use vstd::prelude::*;

use crate::graph::{ends, rests, without, Graph, NodeId};

verus! {

/// The children of each node that has a list of them.
pub type Kids = Map<NodeId, Seq<NodeId>>;

/// The children of `id`.
pub open spec fn kids_of(k: Kids, id: NodeId) -> Seq<NodeId> {
    if k.contains_key(id) {
        k[id]
    } else {
        Seq::empty()
    }
}

/// The children lists among every `HutList` reference of a graph.
pub open spec fn kids_in(lists: Map<(NodeId, Seq<char>), Seq<NodeId>>) -> Kids {
    Map::new(
        |id: NodeId| lists.contains_key((id, "children"@)),
        |id: NodeId| lists[(id, "children"@)],
    )
}

/// Whether `rank` falls from every node to each of its children.
pub open spec fn ranked(k: Kids, rank: spec_fn(NodeId) -> nat) -> bool {
    forall|p: NodeId, i: int|
        k.contains_key(p) && 0 <= i < k[p].len() ==> rank(#[trigger] k[p][i]) < rank(p)
}

/// Whether no node hangs, however far down, under itself.
pub open spec fn acyclic(k: Kids) -> bool {
    exists|rank: spec_fn(NodeId) -> nat| ranked(k, rank)
}

/// A rank that falls from every node to each of its children.
pub open spec fn some_rank(k: Kids) -> spec_fn(NodeId) -> nat {
    choose|rank: spec_fn(NodeId) -> nat| ranked(k, rank)
}

pub open spec fn subtree_by(k: Kids, rank: spec_fn(NodeId) -> nat, id: NodeId) -> Seq<NodeId>
    decreases rank(id), kids_of(k, id).len() + 1,
{
    seq![id] + forest_by(k, rank, kids_of(k, id), rank(id))
}

pub open spec fn forest_by(
    k: Kids,
    rank: spec_fn(NodeId) -> nat,
    ids: Seq<NodeId>,
    bound: nat,
) -> Seq<NodeId>
    decreases bound, ids.len(),
{
    if ids.len() == 0 || rank(ids[0]) >= bound {
        Seq::empty()
    } else {
        subtree_by(k, rank, ids[0]) + forest_by(k, rank, ids.drop_first(), bound)
    }
}

/// `id` and everything under it: each node before its children, the children
/// in order.
pub open spec fn subtree(k: Kids, id: NodeId) -> Seq<NodeId> {
    subtree_by(k, some_rank(k), id)
}

/// The subtrees of these nodes, one after the other.
pub open spec fn subtrees(k: Kids, ids: Seq<NodeId>) -> Seq<NodeId>
    decreases ids.len(),
{
    if ids.len() == 0 {
        Seq::empty()
    } else {
        subtrees(k, ids.drop_last()) + subtree(k, ids.last())
    }
}

pub proof fn lemma_subtrees_front(k: Kids, ids: Seq<NodeId>)
    requires
        ids.len() > 0,
    ensures
        subtrees(k, ids) == subtree(k, ids[0]) + subtrees(k, ids.drop_first()),
    decreases ids.len(),
{
    if ids.len() == 1 {
        assert(ids.drop_last() =~= Seq::empty());
        assert(ids.drop_first() =~= Seq::empty());
        assert(subtrees(k, ids.drop_last()) =~= Seq::empty());
        assert(subtrees(k, ids) =~= subtree(k, ids[0]));
        assert(subtree(k, ids[0]) + Seq::<NodeId>::empty() =~= subtree(k, ids[0]));
    } else {
        lemma_subtrees_front(k, ids.drop_last());
        assert(ids.drop_last().drop_first() =~= ids.drop_first().drop_last());
        assert(ids.drop_first().last() == ids.last());
        assert(subtrees(k, ids) =~= subtree(k, ids[0]) + subtrees(k, ids.drop_first()));
    }
}

pub proof fn lemma_subtrees_concat(k: Kids, a: Seq<NodeId>, b: Seq<NodeId>)
    ensures
        subtrees(k, a + b) == subtrees(k, a) + subtrees(k, b),
    decreases b.len(),
{
    if b.len() == 0 {
        assert(a + b =~= a);
        assert(subtrees(k, a) + subtrees(k, b) =~= subtrees(k, a));
    } else {
        lemma_subtrees_concat(k, a, b.drop_last());
        assert((a + b).drop_last() =~= a + b.drop_last());
        assert((a + b).last() == b.last());
        assert(subtrees(k, a + b) =~= subtrees(k, a) + subtrees(k, b));
    }
}

proof fn lemma_forest_is_subtrees(k: Kids, ids: Seq<NodeId>, bound: nat)
    requires
        forall|i: int| 0 <= i < ids.len() ==> some_rank(k)(#[trigger] ids[i]) < bound,
    ensures
        forest_by(k, some_rank(k), ids, bound) == subtrees(k, ids),
    decreases ids.len(),
{
    if ids.len() > 0 {
        lemma_subtrees_front(k, ids);
        let t = ids.drop_first();
        assert forall|i: int| 0 <= i < t.len() implies some_rank(k)(#[trigger] t[i]) < bound by {
            assert(t[i] == ids[i + 1]);
        }
        assert(some_rank(k)(ids[0]) < bound);
        lemma_forest_is_subtrees(k, t, bound);
    }
}

/// Where nothing hangs under itself, a subtree is its root followed by the
/// subtrees of the root's children.
pub proof fn law_subtree_unfolds(k: Kids, id: NodeId)
    requires
        acyclic(k),
    ensures
        subtree(k, id) == seq![id] + subtrees(k, kids_of(k, id)),
{
    let rank = some_rank(k);
    assert(ranked(k, rank));
    let ids = kids_of(k, id);
    assert forall|i: int| 0 <= i < ids.len() implies rank(#[trigger] ids[i]) < rank(id) by {
        assert(rank(k[id][i]) < rank(id));
    }
    lemma_forest_is_subtrees(k, ids, rank(id));
}

/// Where nothing hangs under itself, a step to one of a node's own children
/// comes to rest.
pub proof fn lemma_step_ends(k: Kids, step: spec_fn(NodeId) -> Option<NodeId>, id: NodeId)
    requires
        acyclic(k),
        forall|i: NodeId|
            (#[trigger] step(i)) is Some ==> kids_of(k, i).contains(step(i)->0),
    ensures
        ends(step, id),
{
    let rank = some_rank(k);
    assert(ranked(k, rank));
    lemma_step_rests(k, rank, step, id, rank(id));
    assert(rests(step, id, rank(id)));
}

proof fn lemma_step_rests(
    k: Kids,
    rank: spec_fn(NodeId) -> nat,
    step: spec_fn(NodeId) -> Option<NodeId>,
    id: NodeId,
    n: nat,
)
    requires
        ranked(k, rank),
        rank(id) <= n,
        forall|i: NodeId|
            (#[trigger] step(i)) is Some ==> kids_of(k, i).contains(step(i)->0),
    ensures
        rests(step, id, n),
    decreases n,
{
    match step(id) {
        None => {},
        Some(next) => {
            let j = choose|j: int| 0 <= j < kids_of(k, id).len() && kids_of(k, id)[j] == next;
            assert(rank(k[id][j]) < rank(id));
            lemma_step_rests(k, rank, step, next, (n - 1) as nat);
        },
    }
}

/// The children lists once node `id` is gone.
pub open spec fn kids_without(k: Kids, id: NodeId) -> Kids {
    Map::new(|p: NodeId| k.contains_key(p) && p != id, |p: NodeId| without(k[p], id))
}

pub proof fn lemma_kids_without_acyclic(k: Kids, id: NodeId)
    requires
        acyclic(k),
    ensures
        acyclic(kids_without(k, id)),
{
    let rank = some_rank(k);
    assert(ranked(k, rank));
    let k2 = kids_without(k, id);
    assert forall|p: NodeId, i: int| k2.contains_key(p) && 0 <= i < k2[p].len() implies rank(
        #[trigger] k2[p][i],
    ) < rank(p) by {
        crate::graph::lemma_without(k[p], id);
        assert(without(k[p], id).contains(k2[p][i]));
        let x = k2[p][i];
        assert(k[p].contains(x));
        let j = choose|j: int| 0 <= j < k[p].len() && k[p][j] == x;
        assert(rank(k[p][j]) < rank(p));
    }
    assert(ranked(k2, rank));
}

/// Appends `id` and everything under it, each node before its children.
pub fn collect_subtree<N, V, Env>(graph: &Graph<N, V, Env>, id: NodeId, out: &mut Vec<NodeId>)
    requires
        acyclic(kids_in(graph@.hut_lists)),
    ensures
        final(out)@ == old(out)@ + subtree(kids_in(graph@.hut_lists), id),
    decreases some_rank(kids_in(graph@.hut_lists))(id),
{
    let ghost k = kids_in(graph@.hut_lists);
    let ghost rank = some_rank(k);
    out.push(id);
    let children = graph.hut_list_input(id, "children");
    proof {
        assert(ranked(k, rank));
        assert(children@ == kids_of(k, id));
        assert(children@.take(0) =~= Seq::empty());
        assert(out@ =~= old(out)@ + seq![id] + subtrees(k, children@.take(0)));
    }
    for i in 0..children.len()
        invariant
            k == kids_in(graph@.hut_lists),
            acyclic(k),
            rank == some_rank(k),
            ranked(k, rank),
            children@ == kids_of(k, id),
            out@ == old(out)@ + seq![id] + subtrees(k, children@.take(i as int)),
    {
        assert(rank(k[id][i as int]) < rank(id));
        let ghost before = out@;
        collect_subtree(graph, children[i], out);
        proof {
            let t = children@.take(i + 1);
            assert(t.drop_last() =~= children@.take(i as int));
            assert(t.last() == children@[i as int]);
            assert(out@ =~= old(out)@ + seq![id] + subtrees(k, t));
        }
    }
    proof {
        assert(children@.take(children@.len() as int) =~= children@);
        law_subtree_unfolds(k, id);
        assert(out@ =~= old(out)@ + subtree(k, id));
    }
}

/// The subtrees of these nodes, one after the other.
pub fn collect_subtrees<N, V, Env>(graph: &Graph<N, V, Env>, tops: &Vec<NodeId>) -> (r: Vec<
    NodeId,
>)
    requires
        acyclic(kids_in(graph@.hut_lists)),
    ensures
        r@ == subtrees(kids_in(graph@.hut_lists), tops@),
{
    let mut out: Vec<NodeId> = Vec::new();
    assert(tops@.take(0) =~= Seq::empty());
    for i in 0..tops.len()
        invariant
            acyclic(kids_in(graph@.hut_lists)),
            out@ == subtrees(kids_in(graph@.hut_lists), tops@.take(i as int)),
    {
        collect_subtree(graph, tops[i], &mut out);
        proof {
            let t = tops@.take(i + 1);
            assert(t.drop_last() =~= tops@.take(i as int));
            assert(t.last() == tops@[i as int]);
        }
    }
    assert(tops@.take(tops@.len() as int) =~= tops@);
    out
}

/// The subtrees of several nodes come in the order of the nodes.
pub proof fn law_subtrees_follow_one_another(k: Kids, ids: Seq<NodeId>, more: NodeId)
    ensures
        subtrees(k, Seq::empty()) == Seq::<NodeId>::empty(),
        subtrees(k, ids.push(more)) == subtrees(k, ids) + subtree(k, more),
{
    assert(ids.push(more).drop_last() =~= ids);
}

/// A node's children are those that its `children` list refers to; without a list
/// it has none.
pub proof fn law_children_are_listed(
    lists: Map<(NodeId, Seq<char>), Seq<NodeId>>,
    id: NodeId,
    targets: Seq<NodeId>,
)
    ensures
        ({
            let port = seq!['c', 'h', 'i', 'l', 'd', 'r', 'e', 'n'];
            &&& kids_of(kids_in(lists.insert((id, port), targets)), id) == targets
            &&& kids_of(kids_in(lists.remove((id, port))), id) == Seq::<NodeId>::empty()
        }),
{
    reveal_strlit("children");
    assert("children"@ =~= seq!['c', 'h', 'i', 'l', 'd', 'r', 'e', 'n']);
}

/// Once a node is gone it has no children and is nobody's child; the other
/// children stay.
pub proof fn law_children_without_a_node(k: Kids, id: NodeId, p: NodeId, x: NodeId)
    ensures
        kids_of(kids_without(k, id), id).len() == 0,
        !kids_of(kids_without(k, id), p).contains(id),
        p != id && x != id ==> (kids_of(kids_without(k, id), p).contains(x) <==> kids_of(
            k,
            p,
        ).contains(x)),
{
    if k.contains_key(p) {
        crate::graph::lemma_without(k[p], id);
    }
}

} // verus!
