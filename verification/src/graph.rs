//! The typed port graph: nodes with declared ports, value links between
//! outputs and inputs, references from a node to the Huts it contains, and a
//! per-frame memo of resolved values.
//!
//! Two kinds of link are kept apart. A `Content`/`Control` port carries a
//! value that some node computes. A `Hut`/`HutList` port refers to other nodes
//! that already sit in the graph.
use vstd::prelude::*;

use crate::assoc::{filtered, AssocMap, MapKey};
use crate::text::str_eq;

verus! {

/// The kind of thing a port carries.
#[derive(Debug, Clone, Copy, PartialEq, Eq, Structural)]
pub enum PortKind {
    Content,
    Control,
    /// A reference to a single other node in the graph.
    Hut,
    /// An ordered list of references to other nodes in the graph.
    HutList,
}

impl PortKind {
    /// Whether the port carries a computed value rather than a reference.
    pub open spec fn carries_value(self) -> bool {
        self is Content || self is Control
    }

    pub fn is_value(self) -> (r: bool)
        ensures
            r == self.carries_value(),
    {
        matches!(self, PortKind::Content | PortKind::Control)
    }
}

#[derive(Debug, Clone, Copy)]
pub struct InputPort {
    pub name: &'static str,
    pub kind: PortKind,
}

#[derive(Debug, Clone, Copy)]
pub struct OutputPort {
    pub name: &'static str,
    pub kind: PortKind,
}

/// A node's identity. Ids are handed out once and never again.
#[derive(Debug, Clone, Copy, PartialEq, Eq, Hash, Structural)]
pub struct NodeId(pub u64);

impl MapKey for NodeId {
    type Key = NodeId;

    open spec fn key(&self) -> NodeId {
        *self
    }

    fn same(&self, other: &Self) -> (r: bool) {
        self.0 == other.0
    }
}

/// One port of one node.
#[derive(Clone, Copy)]
pub struct PortKey {
    pub node: NodeId,
    pub port: &'static str,
}

impl MapKey for PortKey {
    type Key = (NodeId, Seq<char>);

    open spec fn key(&self) -> (NodeId, Seq<char>) {
        (self.node, self.port@)
    }

    fn same(&self, other: &Self) -> (r: bool) {
        self.node.0 == other.node.0 && str_eq(self.port, other.port)
    }
}

#[derive(Debug)]
pub enum GraphError {
    UnknownNode(NodeId),
    UnknownOutputPort { node: NodeId, port: &'static str },
    UnknownInputPort { node: NodeId, port: &'static str },
    PortKindMismatch { input: PortKind, output: PortKind },
    /// Value links only ever join `Content`/`Control` ports.
    NotAValuePort { node: NodeId, port: &'static str },
    /// A Hut reference needs a `Hut` input port.
    NotAReferencePort { node: NodeId, port: &'static str },
    WrongReferenceArity { node: NodeId, port: &'static str, expected: PortKind },
}

/// Anything that can sit in the graph.
pub trait Node: Sized {
    open spec fn in_ports(&self) -> Seq<InputPort> {
        Seq::empty()
    }

    open spec fn out_ports(&self) -> Seq<OutputPort> {
        Seq::empty()
    }

    /// The child that focus goes on to, given every `HutList` reference of
    /// the graph.
    open spec fn focus_in(
        &self,
        lists: Map<(NodeId, Seq<char>), Seq<NodeId>>,
        self_id: NodeId,
    ) -> Option<NodeId> {
        None
    }

    open spec fn is_touched(&self) -> bool {
        true
    }

    open spec fn as_touched(&self) -> Self {
        *self
    }

    fn inputs(&self) -> (r: Vec<InputPort>)
        ensures
            r@ == self.in_ports(),
    ;

    fn outputs(&self) -> (r: Vec<OutputPort>)
        ensures
            r@ == self.out_ports(),
    ;

    /// This node's own focused child, if it hands focus down. `None` for a
    /// leaf.
    fn focused_child<V, Env>(&self, graph: &Graph<Self, V, Env>, self_id: NodeId) -> (r: Option<
        NodeId,
    >)
        ensures
            r == self.focus_in(graph@.hut_lists, self_id),
    ;

    /// Whether this leaf has ever been interacted with.
    fn touched(&self) -> (r: bool)
        ensures
            r == self.is_touched(),
    ;

    fn mark_touched(&mut self)
        ensures
            *final(self) == old(self).as_touched(),
    ;
}

/// One graph: every node, its value links and its Hut references, all keyed
/// by their downstream (input) side, and the memo of this frame's values.
pub struct Graph<N, V, Env> {
    nodes: AssocMap<NodeId, N>,
    links: AssocMap<PortKey, PortKey>,
    hut_refs: AssocMap<PortKey, NodeId>,
    hut_list_refs: AssocMap<PortKey, Vec<NodeId>>,
    next_id: u64,
    cache: AssocMap<PortKey, V>,
    /// Whatever a node needs besides the graph itself.
    pub env: Env,
}

/// What a graph stands for.
#[verifier::ext_equal]
pub struct GraphView<N, V, Env> {
    pub nodes: Map<NodeId, N>,
    pub links: Map<(NodeId, Seq<char>), (NodeId, Seq<char>)>,
    pub hut_refs: Map<(NodeId, Seq<char>), NodeId>,
    pub hut_lists: Map<(NodeId, Seq<char>), Seq<NodeId>>,
    pub next_id: u64,
    pub cache: Map<(NodeId, Seq<char>), V>,
    pub env: Env,
}

impl<N, V, Env> View for Graph<N, V, Env> {
    type V = GraphView<N, V, Env>;

    closed spec fn view(&self) -> GraphView<N, V, Env> {
        GraphView {
            nodes: self.nodes@,
            links: self.links@.map_values(|k: PortKey| k.key()),
            hut_refs: self.hut_refs@,
            hut_lists: self.hut_list_refs@.map_values(|v: Vec<NodeId>| v@),
            next_id: self.next_id,
            cache: self.cache@,
            env: self.env,
        }
    }
}

/// The list without any occurrence of `id`.
pub open spec fn without(s: Seq<NodeId>, id: NodeId) -> Seq<NodeId> {
    s.filter(|t: NodeId| t != id)
}

/// Whether `step`, followed from `id`, comes to rest within `n` steps.
pub open spec fn rests(step: spec_fn(NodeId) -> Option<NodeId>, id: NodeId, n: nat) -> bool
    decreases n,
{
    match step(id) {
        None => true,
        Some(next) => n > 0 && rests(step, next, (n - 1) as nat),
    }
}

/// What `step` passes through from `id`, `id` first, over at most `n` steps.
pub open spec fn walk(step: spec_fn(NodeId) -> Option<NodeId>, id: NodeId, n: nat) -> Seq<NodeId>
    decreases n,
{
    match step(id) {
        Some(next) if n > 0 => seq![id] + walk(step, next, (n - 1) as nat),
        _ => seq![id],
    }
}

/// Whether `step`, followed from `id`, comes to rest at all.
pub open spec fn ends(step: spec_fn(NodeId) -> Option<NodeId>, id: NodeId) -> bool {
    exists|n: nat| rests(step, id, n)
}

/// What `step` passes through from `id`, `id` first, until it comes to rest.
pub open spec fn path_by(step: spec_fn(NodeId) -> Option<NodeId>, id: NodeId) -> Seq<NodeId> {
    walk(step, id, choose|n: nat| rests(step, id, n))
}

proof fn lemma_walk_agrees(
    step: spec_fn(NodeId) -> Option<NodeId>,
    id: NodeId,
    m: nat,
    n: nat,
)
    requires
        rests(step, id, m),
        rests(step, id, n),
    ensures
        walk(step, id, m) == walk(step, id, n),
    decreases m,
{
    match step(id) {
        None => {},
        Some(next) => {
            lemma_walk_agrees(step, next, (m - 1) as nat, (n - 1) as nat);
        },
    }
}

/// A path is its first node followed by the path of the node that comes next.
pub proof fn law_path_unfolds(step: spec_fn(NodeId) -> Option<NodeId>, id: NodeId)
    requires
        ends(step, id),
    ensures
        path_by(step, id).len() > 0,
        path_by(step, id)[0] == id,
        match step(id) {
            None => path_by(step, id) == seq![id],
            Some(next) => ends(step, next) && path_by(step, id) == seq![id] + path_by(step, next),
        },
{
    let n = choose|n: nat| rests(step, id, n);
    assert(rests(step, id, n));
    match step(id) {
        None => {},
        Some(next) => {
            assert(rests(step, next, (n - 1) as nat));
            let m = choose|m: nat| rests(step, next, m);
            assert(rests(step, next, m));
            lemma_walk_agrees(step, next, m, (n - 1) as nat);
        },
    }
}

/// The kind of the first input port with this name.
pub open spec fn input_named(ports: Seq<InputPort>, name: Seq<char>) -> Option<PortKind>
    decreases ports.len(),
{
    if ports.len() == 0 {
        None
    } else if ports[0].name@ == name {
        Some(ports[0].kind)
    } else {
        input_named(ports.drop_first(), name)
    }
}

/// The kind of the first output port with this name.
pub open spec fn output_named(ports: Seq<OutputPort>, name: Seq<char>) -> Option<PortKind>
    decreases ports.len(),
{
    if ports.len() == 0 {
        None
    } else if ports[0].name@ == name {
        Some(ports[0].kind)
    } else {
        output_named(ports.drop_first(), name)
    }
}

impl<N, V, Env> GraphView<N, V, Env> {
    /// Every node that the `HutList` port `port` of `id` refers to, in order.
    pub open spec fn hut_list(self, id: NodeId, port: Seq<char>) -> Seq<NodeId> {
        if self.hut_lists.contains_key((id, port)) {
            self.hut_lists[(id, port)]
        } else {
            Seq::empty()
        }
    }

    /// The graph once `id` and every link or reference at or from it is gone.
    pub open spec fn without_node(self, id: NodeId) -> Self {
        GraphView {
            nodes: self.nodes.remove(id),
            links: filtered(
                self.links,
                |k: (NodeId, Seq<char>), s: (NodeId, Seq<char>)| k.0 != id && s.0 != id,
            ),
            hut_refs: filtered(
                self.hut_refs,
                |k: (NodeId, Seq<char>), t: NodeId| k.0 != id && t != id,
            ),
            hut_lists: filtered(
                self.hut_lists,
                |k: (NodeId, Seq<char>), t: Seq<NodeId>| k.0 != id,
            ).map_values(|t: Seq<NodeId>| without(t, id)),
            ..self
        }
    }
}

impl<N: Node, V, Env> GraphView<N, V, Env> {
    /// The kind of an input port, or why there is none.
    pub open spec fn input_kind(self, id: NodeId, port: &'static str) -> Result<
        PortKind,
        GraphError,
    > {
        if !self.nodes.contains_key(id) {
            Err(GraphError::UnknownNode(id))
        } else {
            match input_named(self.nodes[id].in_ports(), port@) {
                Some(kind) => Ok(kind),
                None => Err(GraphError::UnknownInputPort { node: id, port }),
            }
        }
    }

    /// The kind of an output port, or why there is none.
    pub open spec fn output_kind(self, id: NodeId, port: &'static str) -> Result<
        PortKind,
        GraphError,
    > {
        if !self.nodes.contains_key(id) {
            Err(GraphError::UnknownNode(id))
        } else {
            match output_named(self.nodes[id].out_ports(), port@) {
                Some(kind) => Ok(kind),
                None => Err(GraphError::UnknownOutputPort { node: id, port }),
            }
        }
    }

    /// Whether a value link may be made, or why not.
    pub open spec fn link_check(
        self,
        from: NodeId,
        from_port: &'static str,
        to: NodeId,
        to_port: &'static str,
    ) -> Result<(), GraphError> {
        match self.output_kind(from, from_port) {
            Err(e) => Err(e),
            Ok(output) => match self.input_kind(to, to_port) {
                Err(e) => Err(e),
                Ok(input) => if !input.carries_value() {
                    Err(GraphError::NotAValuePort { node: to, port: to_port })
                } else if !output.carries_value() {
                    Err(GraphError::NotAValuePort { node: from, port: from_port })
                } else if input != output {
                    Err(GraphError::PortKindMismatch { input, output })
                } else {
                    Ok(())
                },
            },
        }
    }

    /// Whether `to_port` of `to` takes a single Hut reference, or why not.
    pub open spec fn hut_check(self, to: NodeId, to_port: &'static str) -> Result<(), GraphError> {
        match self.input_kind(to, to_port) {
            Err(e) => Err(e),
            Ok(kind) => if kind == PortKind::Hut {
                Ok(())
            } else {
                Err(GraphError::NotAReferencePort { node: to, port: to_port })
            },
        }
    }

    /// Whether `to_port` of `to` takes a list of Hut references, or why not.
    pub open spec fn list_check(self, to: NodeId, to_port: &'static str) -> Result<
        (),
        GraphError,
    > {
        match self.input_kind(to, to_port) {
            Err(e) => Err(e),
            Ok(kind) => if kind == PortKind::HutList {
                Ok(())
            } else {
                Err(GraphError::WrongReferenceArity { node: to, port: to_port, expected: kind })
            },
        }
    }

    /// The child that `id` hands focus to.
    pub open spec fn focus_step(self, id: NodeId) -> Option<NodeId> {
        if self.nodes.contains_key(id) {
            self.nodes[id].focus_in(self.hut_lists, id)
        } else {
            None
        }
    }

    /// Whether focus, followed down from `id`, comes to rest at all.
    pub open spec fn focus_ends(self, id: NodeId) -> bool {
        ends(|i: NodeId| self.focus_step(i), id)
    }

    /// The nodes that focus passes through from `id` down to the leaf, `id`
    /// first.
    pub open spec fn path(self, id: NodeId) -> Seq<NodeId> {
        path_by(|i: NodeId| self.focus_step(i), id)
    }
}

/// Whether a call was lent the node `id` of the graph `before` together with
/// the rest of it, and `after` is what the call left of both, put back
/// together.
pub open spec fn lent<N, V, Env>(
    before: GraphView<N, V, Env>,
    after: GraphView<N, V, Env>,
    id: NodeId,
    node: (N, N),
    rest: (GraphView<N, V, Env>, GraphView<N, V, Env>),
) -> bool {
    &&& node.0 == before.nodes[id]
    &&& rest.0 == (GraphView { nodes: before.nodes.remove(id), ..before })
    &&& after == (GraphView { nodes: rest.1.nodes.insert(id, node.1), ..rest.1 })
}

impl<N, V, Env> Graph<N, V, Env> {
    /// An empty graph around `env`.
    pub fn with_env(env: Env) -> (r: Self)
        ensures
            r@ == (GraphView::<N, V, Env> {
                nodes: Map::empty(),
                links: Map::empty(),
                hut_refs: Map::empty(),
                hut_lists: Map::empty(),
                next_id: 0,
                cache: Map::empty(),
                env,
            }),
    {
        let r = Graph {
            nodes: AssocMap::new(),
            links: AssocMap::new(),
            hut_refs: AssocMap::new(),
            hut_list_refs: AssocMap::new(),
            next_id: 0,
            cache: AssocMap::new(),
            env,
        };
        assert(r@.links =~= Map::empty());
        assert(r@.hut_lists =~= Map::empty());
        r
    }

    /// Adds a node and returns the fresh id it now has.
    pub fn add_node(&mut self, node: N) -> (r: NodeId)
        requires
            old(self)@.next_id < u64::MAX,
        ensures
            r == NodeId(old(self)@.next_id),
            final(self)@ == (GraphView {
                nodes: old(self)@.nodes.insert(r, node),
                next_id: (old(self)@.next_id + 1) as u64,
                ..old(self)@
            }),
    {
        let id = NodeId(self.next_id);
        self.next_id = self.next_id + 1;
        self.nodes.insert(id, node);
        id
    }

    /// Drops the node and prunes every link and reference that pointed at or
    /// from it, so that none is left dangling.
    pub fn remove_node(&mut self, id: NodeId)
        ensures
            final(self)@ == old(self)@.without_node(id),
    {
        let ghost before = self@;
        let ghost raw_links = self.links@;
        let ghost raw_lists = self.hut_list_refs@;
        self.nodes.remove(&id);
        let keep_link = |k: &PortKey, s: &PortKey| -> (r: bool)
            ensures
                r == (k.key().0 != id && s.key().0 != id),
        {
            k.node.0 != id.0 && s.node.0 != id.0
        };
        self.links.retain(
            keep_link,
            Ghost(|k: (NodeId, Seq<char>), s: PortKey| k.0 != id && s.key().0 != id),
        );
        let keep_ref = |k: &PortKey, t: &NodeId| -> (r: bool)
            ensures
                r == (k.key().0 != id && *t != id),
        {
            k.node.0 != id.0 && t.0 != id.0
        };
        self.hut_refs.retain(
            keep_ref,
            Ghost(|k: (NodeId, Seq<char>), t: NodeId| k.0 != id && t != id),
        );
        let keep_list = |k: &PortKey, t: &Vec<NodeId>| -> (r: bool)
            ensures
                r == (k.key().0 != id),
        {
            k.node.0 != id.0
        };
        self.hut_list_refs.retain(
            keep_list,
            Ghost(|k: (NodeId, Seq<char>), t: Vec<NodeId>| k.0 != id),
        );
        let prune = |t: &Vec<NodeId>| -> (r: Vec<NodeId>)
            ensures
                r@ == without(t@, id),
        {
            drop_id(t, id)
        };
        self.hut_list_refs.map_values(
            prune,
            Ghost(|t: Vec<NodeId>, r: Vec<NodeId>| r@ == without(t@, id)),
        );
        proof {
            let after = before.without_node(id);
            assert(self@.links =~= after.links);
            assert(self@.hut_refs =~= after.hut_refs);
            assert(self@.hut_lists =~= after.hut_lists);
        }
    }

    pub fn node(&self, id: NodeId) -> (r: Option<&N>)
        ensures
            r == (if self@.nodes.contains_key(id) {
                Some(&self@.nodes[id])
            } else {
                None::<&N>
            }),
    {
        self.nodes.get(&id)
    }

    pub fn node_mut(&mut self, id: NodeId) -> (r: Option<&mut N>)
        ensures
            match r {
                Some(n) => {
                    &&& old(self)@.nodes.contains_key(id)
                    &&& *n == old(self)@.nodes[id]
                    &&& final(self)@ == (GraphView {
                        nodes: old(self)@.nodes.insert(id, *final(n)),
                        ..old(self)@
                    })
                },
                None => !old(self)@.nodes.contains_key(id) && final(self)@ == old(self)@,
            },
    {
        self.nodes.get_mut(&id)
    }

    /// The id of every node, each once, in no particular order.
    pub fn node_ids(&self) -> (r: Vec<NodeId>)
        ensures
            r@.no_duplicates(),
            forall|id: NodeId| self@.nodes.contains_key(id) <==> #[trigger] r@.contains(id),
    {
        let r = self.nodes.keys();
        proof {
            assert forall|id: NodeId| self@.nodes.contains_key(id) <==> #[trigger] r@.contains(
                id,
            ) by {
                if self@.nodes.contains_key(id) {
                    let i = choose|i: int| 0 <= i < r@.len() && (#[trigger] r@[i]).key() == id;
                    assert(r@[i] == id);
                }
                if r@.contains(id) {
                    let i = choose|i: int| 0 <= i < r@.len() && r@[i] == id;
                    assert(r@[i].key() == id);
                }
            }
            assert forall|i: int, j: int| 0 <= i < r@.len() && 0 <= j < r@.len() && i != j implies r@[i]
                != r@[j] by {
                if i < j {
                    assert(r@[i].key() != r@[j].key());
                } else {
                    assert(r@[j].key() != r@[i].key());
                }
            }
        }
        r
    }

    /// Calls `f` with the node and the rest of the graph at once: the node is
    /// taken out for the length of the call and put back afterwards. `None`,
    /// without a call, if there is no such node.
    pub fn with_node_mut<R, F: FnOnce(&mut N, &mut Self) -> R>(&mut self, id: NodeId, f: F) -> (r:
        Option<R>)
        requires
            forall|n: &mut N, g: &mut Self| call_requires(f, (n, g)),
        ensures
            r is Some == old(self)@.nodes.contains_key(id),
            r is None ==> final(self)@ == old(self)@,
            r is Some ==> exists|n: &mut N, g: &mut Self|
                {
                    &&& call_ensures(f, (n, g), r->0)
                    &&& #[trigger] lent(
                        old(self)@,
                        final(self)@,
                        id,
                        (*n, *final(n)),
                        (g@, final(g)@),
                    )
                },
    {
        match self.nodes.remove(&id) {
            None => {
                assert(self@.nodes =~= old(self)@.nodes);
                None
            },
            Some(mut node) => {
                let r = f(&mut node, self);
                let ghost mid = *self;
                let ghost put_back = node;
                let ghost (n0, g0) = choose|n: &mut N, g: &mut Self|
                    #![auto]
                    {
                        &&& call_ensures(f, (n, g), r)
                        &&& *n == old(self)@.nodes[id]
                        &&& g.nodes@ == old(self).nodes@.remove(id)
                        &&& g.links == old(self).links
                        &&& g.hut_refs == old(self).hut_refs
                        &&& g.hut_list_refs == old(self).hut_list_refs
                        &&& g.next_id == old(self).next_id
                        &&& g.cache == old(self).cache
                        &&& g.env == old(self).env
                        &&& *final(g) == mid
                        &&& *final(n) == put_back
                    };
                self.nodes.insert(id, node);
                proof {
                    assert(lent(old(self)@, self@, id, (*n0, *final(n0)), (g0@, final(g0)@)));
                }
                Some(r)
            },
        }
    }

    pub fn unlink(&mut self, to: NodeId, to_port: &'static str)
        ensures
            final(self)@ == (GraphView {
                links: old(self)@.links.remove((to, to_port@)),
                ..old(self)@
            }),
    {
        self.links.remove(&PortKey { node: to, port: to_port });
        assert(self@.links =~= old(self)@.links.remove((to, to_port@)));
    }

    /// Forgets every value of the frame before.
    pub fn begin_frame(&mut self)
        ensures
            final(self)@ == (GraphView { cache: Map::empty(), ..old(self)@ }),
    {
        self.cache.clear();
    }

    /// What the frame remembers of `id`'s output `port`.
    pub(crate) fn kept(&self, id: NodeId, port: &'static str) -> (r: Option<&V>)
        ensures
            r == (if self@.cache.contains_key((id, port@)) {
                Some(&self@.cache[(id, port@)])
            } else {
                None::<&V>
            }),
    {
        self.cache.get(&PortKey { node: id, port })
    }

    /// Has the frame remember the value of `id`'s output `port`.
    pub(crate) fn keep(&mut self, id: NodeId, port: &'static str, value: V)
        ensures
            final(self)@ == (GraphView {
                cache: old(self)@.cache.insert((id, port@), value),
                ..old(self)@
            }),
    {
        self.cache.insert(PortKey { node: id, port }, value);
    }

    pub fn unlink_hut(&mut self, to: NodeId, to_port: &'static str)
        ensures
            final(self)@ == (GraphView {
                hut_refs: old(self)@.hut_refs.remove((to, to_port@)),
                ..old(self)@
            }),
    {
        self.hut_refs.remove(&PortKey { node: to, port: to_port });
    }

    pub fn hut_input(&self, id: NodeId, port: &'static str) -> (r: Option<NodeId>)
        ensures
            r == (if self@.hut_refs.contains_key((id, port@)) {
                Some(self@.hut_refs[(id, port@)])
            } else {
                None::<NodeId>
            }),
    {
        match self.hut_refs.get(&PortKey { node: id, port }) {
            Some(t) => Some(*t),
            None => None,
        }
    }

    /// Every node that a `HutList` input port refers to, in order; empty if
    /// nothing is linked.
    pub fn hut_list_input(&self, id: NodeId, port: &'static str) -> (r: Vec<NodeId>)
        ensures
            r@ == self@.hut_list(id, port@),
    {
        match self.hut_list_refs.get(&PortKey { node: id, port }) {
            Some(t) => copy_ids(t),
            None => Vec::new(),
        }
    }
}

impl<N, V> Graph<N, V, ()> {
    /// An empty graph whose nodes need nothing besides the graph.
    pub fn new() -> (r: Self)
        ensures
            r@ == (GraphView::<N, V, ()> {
                nodes: Map::empty(),
                links: Map::empty(),
                hut_refs: Map::empty(),
                hut_lists: Map::empty(),
                next_id: 0,
                cache: Map::empty(),
                env: (),
            }),
    {
        Graph::with_env(())
    }
}

/// Whether resolving `key` took the graph `before` to `after` by one call,
/// which was lent the node and the rest of the graph, and `kept` is what the
/// frame remembers of its result.
pub open spec fn resolved_by<N, V, Env>(
    before: GraphView<N, V, Env>,
    after: GraphView<N, V, Env>,
    key: (NodeId, Seq<char>),
    node: (N, N),
    rest: (GraphView<N, V, Env>, GraphView<N, V, Env>),
    kept: V,
) -> bool {
    let back = GraphView { nodes: rest.1.nodes.insert(key.0, node.1), ..rest.1 };
    &&& lent(before, back, key.0, node, rest)
    &&& after == (GraphView { cache: back.cache.insert(key, kept), ..back })
}

/// Whether a clone of a value is always equal to it.
pub open spec fn clones_equal<V: Clone>() -> bool {
    forall|a: V, b: V| #[trigger] cloned(a, b) ==> a == b
}

/// Whether making a value for `key` took the graph `before` to `after` by one
/// call, and the frame remembers a clone of it.
pub open spec fn made<N, V: Clone, Env>(
    before: GraphView<N, V, Env>,
    after: GraphView<N, V, Env>,
    key: (NodeId, Seq<char>),
    value: V,
) -> bool {
    exists|
        node: (N, N),
        rest: (GraphView<N, V, Env>, GraphView<N, V, Env>),
        kept: V,
    |
        cloned(value, kept) && #[trigger] resolved_by(before, after, key, node, rest, kept)
}

/// Whether `r` comes of resolving `key`, which takes the graph `before` to
/// `after`: a value that the frame remembers is handed out and nothing is
/// called, there is none for a node that is not there, and any other is made.
pub open spec fn resolves<N, V: Clone, Env>(
    before: GraphView<N, V, Env>,
    after: GraphView<N, V, Env>,
    key: (NodeId, Seq<char>),
    r: Option<V>,
) -> bool {
    if before.cache.contains_key(key) {
        r is Some && cloned(before.cache[key], r->0) && after == before
    } else if before.nodes.contains_key(key.0) {
        r is Some && made(before, after, key, r->0)
    } else {
        r is None && after == before
    }
}

impl<N, V: Clone, Env> Graph<N, V, Env> {
    /// The value of `id`'s output `port`, memoized within the frame.
    ///
    /// A value that this frame already has is handed out again. Otherwise
    /// `run` makes it: it is lent the node and the rest of the graph, in which
    /// the node's own slot is empty until the call returns, so that it can
    /// resolve any other node but not this one again. `None` if there is no
    /// such node.
    pub fn resolve_output<F: FnOnce(&mut N, &mut Self, NodeId, &'static str) -> V>(
        &mut self,
        id: NodeId,
        port: &'static str,
        run: F,
    ) -> (r: Option<V>)
        requires
            forall|n: &mut N, g: &mut Self| call_requires(run, (n, g, id, port)),
        ensures
            old(self)@.cache.contains_key((id, port@)) ==> {
                &&& r is Some
                &&& cloned(old(self)@.cache[(id, port@)], r->0)
                &&& final(self)@ == old(self)@
            },
            !old(self)@.cache.contains_key((id, port@)) && !old(self)@.nodes.contains_key(id)
                ==> r is None && final(self)@ == old(self)@,
            resolves(old(self)@, final(self)@, (id, port@), r),
            r is Some ==> final(self)@.cache.contains_key((id, port@)),
            r is Some && clones_equal::<V>() ==> final(self)@.cache[(id, port@)] == r->0,
            old(self)@.nodes.contains_key(id) ==> final(self)@.nodes.contains_key(id),
            !old(self)@.cache.contains_key((id, port@)) && old(self)@.nodes.contains_key(id) ==> {
                &&& r is Some
                &&& exists|n: &mut N, g: &mut Self, kept: V|
                    {
                        &&& call_ensures(run, (n, g, id, port), r->0)
                        &&& cloned(r->0, kept)
                        &&& #[trigger] resolved_by(
                            old(self)@,
                            final(self)@,
                            (id, port@),
                            (*n, *final(n)),
                            (g@, final(g)@),
                            kept,
                        )
                    }
            },
    {
        let key = PortKey { node: id, port };
        match self.cache.get(&key) {
            Some(value) => {
                let copy = value.clone();
                assert(cloned(old(self)@.cache[(id, port@)], copy));
                return Some(copy);
            },
            None => {},
        }
        match self.nodes.remove(&id) {
            None => {
                assert(self@.nodes =~= old(self)@.nodes);
                None
            },
            Some(mut node) => {
                let value = run(&mut node, self, id, port);
                let ghost mid = *self;
                let ghost put_back = node;
                let ghost (n0, g0) = choose|n: &mut N, g: &mut Self|
                    #![auto]
                    {
                        &&& call_ensures(run, (n, g, id, port), value)
                        &&& *n == old(self)@.nodes[id]
                        &&& g.nodes@ == old(self).nodes@.remove(id)
                        &&& g.links == old(self).links
                        &&& g.hut_refs == old(self).hut_refs
                        &&& g.hut_list_refs == old(self).hut_list_refs
                        &&& g.next_id == old(self).next_id
                        &&& g.cache == old(self).cache
                        &&& g.env == old(self).env
                        &&& *final(g) == mid
                        &&& *final(n) == put_back
                    };
                self.nodes.insert(id, node);
                let kept = value.clone();
                let ghost kept_value = kept;
                assert(cloned(value, kept));
                self.cache.insert(key, kept);
                proof {
                    assert(call_ensures(run, (n0, g0, id, port), value));
                    assert(resolved_by(
                        old(self)@,
                        self@,
                        (id, port@),
                        (*n0, *final(n0)),
                        (g0@, final(g0)@),
                        kept_value,
                    ));
                }
                Some(value)
            },
        }
    }

    /// The value of whatever is linked to a single-valued input port; `None`
    /// if nothing is.
    pub fn resolve_input<F: FnOnce(&mut N, &mut Self, NodeId, &'static str) -> V>(
        &mut self,
        id: NodeId,
        port: &'static str,
        run: F,
    ) -> (r: Option<V>)
        requires
            forall|n: &mut N, g: &mut Self, i: NodeId, p: &'static str|
                call_requires(run, (n, g, i, p)),
        ensures
            !old(self)@.links.contains_key((id, port@)) ==> r is None && final(self)@ == old(
                self,
            )@,
            old(self)@.links.contains_key((id, port@)) ==> {
                let source = old(self)@.links[(id, port@)];
                &&& old(self)@.cache.contains_key(source) ==> {
                    &&& r is Some
                    &&& cloned(old(self)@.cache[source], r->0)
                    &&& final(self)@ == old(self)@
                }
                &&& !old(self)@.cache.contains_key(source) && !old(self)@.nodes.contains_key(
                    source.0,
                ) ==> r is None && final(self)@ == old(self)@
                &&& !old(self)@.cache.contains_key(source) && old(self)@.nodes.contains_key(
                    source.0,
                ) ==> {
                    &&& r is Some
                    &&& exists|n: &mut N, g: &mut Self, kept: V, from_port: &'static str|
                        {
                            &&& #[trigger] call_ensures(run, (n, g, source.0, from_port), r->0)
                            &&& from_port@ == source.1
                            &&& cloned(r->0, kept)
                            &&& #[trigger] resolved_by(
                                old(self)@,
                                final(self)@,
                                source,
                                (*n, *final(n)),
                                (g@, final(g)@),
                                kept,
                            )
                        }
                }
            },
    {
        match self.links.get(&PortKey { node: id, port }) {
            None => None,
            Some(source) => {
                let from = *source;
                self.resolve_output(from.node, from.port, run)
            },
        }
    }
}

impl<N: Node, V, Env> Graph<N, V, Env> {
    fn output_kind(&self, id: NodeId, name: &'static str) -> (r: Result<PortKind, GraphError>)
        ensures
            r == self@.output_kind(id, name),
    {
        match self.nodes.get(&id) {
            None => Err(GraphError::UnknownNode(id)),
            Some(node) => {
                let ports = node.outputs();
                assert(ports@.skip(0) =~= ports@);
                for i in 0..ports.len()
                    invariant
                        ports@ == node.out_ports(),
                        self@.nodes.contains_key(id),
                        *node == self@.nodes[id],
                        output_named(ports@, name@) == output_named(ports@.skip(i as int), name@),
                {
                    assert(ports@.skip(i as int).drop_first() =~= ports@.skip(i + 1));
                    if str_eq(ports[i].name, name) {
                        return Ok(ports[i].kind);
                    }
                }
                Err(GraphError::UnknownOutputPort { node: id, port: name })
            },
        }
    }

    fn input_kind(&self, id: NodeId, name: &'static str) -> (r: Result<PortKind, GraphError>)
        ensures
            r == self@.input_kind(id, name),
    {
        match self.nodes.get(&id) {
            None => Err(GraphError::UnknownNode(id)),
            Some(node) => {
                let ports = node.inputs();
                assert(ports@.skip(0) =~= ports@);
                for i in 0..ports.len()
                    invariant
                        ports@ == node.in_ports(),
                        self@.nodes.contains_key(id),
                        *node == self@.nodes[id],
                        input_named(ports@, name@) == input_named(ports@.skip(i as int), name@),
                {
                    assert(ports@.skip(i as int).drop_first() =~= ports@.skip(i + 1));
                    if str_eq(ports[i].name, name) {
                        return Ok(ports[i].kind);
                    }
                }
                Err(GraphError::UnknownInputPort { node: id, port: name })
            },
        }
    }

    /// Links a `Content`/`Control` input port to an upstream output of the
    /// same kind, in place of whatever was linked there.
    pub fn link(
        &mut self,
        from: NodeId,
        from_port: &'static str,
        to: NodeId,
        to_port: &'static str,
    ) -> (r: Result<(), GraphError>)
        ensures
            r == old(self)@.link_check(from, from_port, to, to_port),
            final(self)@ == (match r {
                Ok(_) => GraphView {
                    links: old(self)@.links.insert((to, to_port@), (from, from_port@)),
                    ..old(self)@
                },
                Err(_) => old(self)@,
            }),
    {
        let output = match self.output_kind(from, from_port) {
            Ok(kind) => kind,
            Err(e) => return Err(e),
        };
        let input = match self.input_kind(to, to_port) {
            Ok(kind) => kind,
            Err(e) => return Err(e),
        };
        if !input.is_value() {
            return Err(GraphError::NotAValuePort { node: to, port: to_port });
        }
        if !output.is_value() {
            return Err(GraphError::NotAValuePort { node: from, port: from_port });
        }
        if input != output {
            return Err(GraphError::PortKindMismatch { input, output });
        }
        self.links.insert(
            PortKey { node: to, port: to_port },
            PortKey { node: from, port: from_port },
        );
        assert(self@.links =~= old(self)@.links.insert((to, to_port@), (from, from_port@)));
        Ok(())
    }

    /// Makes a `Hut` input port refer to `target`, in place of whatever it
    /// referred to. `target` may be any node.
    pub fn link_hut(&mut self, to: NodeId, to_port: &'static str, target: NodeId) -> (r: Result<
        (),
        GraphError,
    >)
        ensures
            r == old(self)@.hut_check(to, to_port),
            final(self)@ == (match r {
                Ok(_) => GraphView {
                    hut_refs: old(self)@.hut_refs.insert((to, to_port@), target),
                    ..old(self)@
                },
                Err(_) => old(self)@,
            }),
    {
        let kind = match self.input_kind(to, to_port) {
            Ok(kind) => kind,
            Err(e) => return Err(e),
        };
        if kind != PortKind::Hut {
            return Err(GraphError::NotAReferencePort { node: to, port: to_port });
        }
        self.hut_refs.insert(PortKey { node: to, port: to_port }, target);
        Ok(())
    }

    /// Replaces, all at once, every node that a `HutList` input port refers
    /// to.
    pub fn set_hut_list(
        &mut self,
        to: NodeId,
        to_port: &'static str,
        targets: Vec<NodeId>,
    ) -> (r: Result<(), GraphError>)
        ensures
            r == old(self)@.list_check(to, to_port),
            final(self)@ == (match r {
                Ok(_) => GraphView {
                    hut_lists: old(self)@.hut_lists.insert((to, to_port@), targets@),
                    ..old(self)@
                },
                Err(_) => old(self)@,
            }),
    {
        let kind = match self.input_kind(to, to_port) {
            Ok(kind) => kind,
            Err(e) => return Err(e),
        };
        if kind != PortKind::HutList {
            return Err(
                GraphError::WrongReferenceArity { node: to, port: to_port, expected: kind },
            );
        }
        self.hut_list_refs.insert(PortKey { node: to, port: to_port }, targets);
        assert(self@.hut_lists =~= old(self)@.hut_lists.insert((to, to_port@), targets@));
        Ok(())
    }

    /// `id` itself, then each successive focused child in turn, down to the
    /// leaf.
    pub fn focused_path(&self, id: NodeId) -> (r: Vec<NodeId>)
        requires
            self@.focus_ends(id),
        ensures
            r@ == self@.path(id),
    {
        let ghost step = |i: NodeId| self@.focus_step(i);
        let mut path: Vec<NodeId> = Vec::new();
        path.push(id);
        let mut current = id;
        let ghost mut left: nat = choose|n: nat| rests(step, id, n);
        proof {
            assert(rests(step, id, left));
            law_path_unfolds(step, id);
            assert(path@.drop_last() + path_by(step, id) =~= path_by(step, id));
        }
        loop
            invariant
                path@.len() > 0,
                step == (|i: NodeId| self@.focus_step(i)),
                ends(step, current),
                rests(step, current, left),
                path_by(step, id) == path@.drop_last() + path_by(step, current),
                path@.last() == current,
            ensures
                path@ == path_by(step, id),
            decreases left,
        {
            proof {
                law_path_unfolds(step, current);
            }
            let child = match self.nodes.get(&current) {
                Some(node) => node.focused_child(self, current),
                None => None,
            };
            assert(child == step(current));
            match child {
                None => {
                    assert(path@ =~= path@.drop_last() + seq![current]);
                    break ;
                },
                Some(next) => {
                    let ghost before = path@;
                    path.push(next);
                    current = next;
                    proof {
                        left = (left - 1) as nat;
                        law_path_unfolds(step, next);
                        assert(path@.drop_last() =~= before);
                        assert(before =~= before.drop_last() + seq![before.last()]);
                        assert(before + path_by(step, next) =~= before.drop_last() + (seq![
                            before.last(),
                        ] + path_by(step, next)));
                    }
                },
            }
        }
        path
    }

    /// The leaf that focus comes to rest on when followed down from `id`.
    pub fn focused_leaf(&self, id: NodeId) -> (r: NodeId)
        requires
            self@.focus_ends(id),
        ensures
            r == self@.path(id).last(),
    {
        let path = self.focused_path(id);
        proof {
            law_path_unfolds(|i: NodeId| self@.focus_step(i), id);
        }
        path[path.len() - 1]
    }
}

/// Once a node is removed, no link and no reference leads from it or to it.
pub proof fn law_removed_node_is_not_referenced<N, V, Env>(
    g: GraphView<N, V, Env>,
    id: NodeId,
    at: NodeId,
    port: Seq<char>,
)
    ensures
        !g.without_node(id).nodes.contains_key(id),
        g.without_node(id).links.contains_key((at, port)) ==> at != id && g.without_node(
            id,
        ).links[(at, port)].0 != id,
        g.without_node(id).hut_refs.contains_key((at, port)) ==> at != id && g.without_node(
            id,
        ).hut_refs[(at, port)] != id,
        g.without_node(id).hut_lists.contains_key((at, port)) ==> at != id,
        !g.without_node(id).hut_list(at, port).contains(id),
{
    if g.without_node(id).hut_lists.contains_key((at, port)) {
        lemma_without(g.hut_lists[(at, port)], id);
    }
}

/// `id` is gone from the list, every other entry is still there.
pub proof fn lemma_without(s: Seq<NodeId>, id: NodeId)
    ensures
        !without(s, id).contains(id),
        forall|x: NodeId| x != id ==> (#[trigger] without(s, id).contains(x) <==> s.contains(x)),
    decreases s.len(),
{
    reveal(Seq::filter);
    if s.len() > 0 {
        let t = s.drop_last();
        lemma_without(t, id);
        assert(s =~= t.push(s.last()));
        assert forall|x: NodeId| #![auto] without(s, id).contains(x) implies x != id && s.contains(x) by {
            let i = choose|i: int| 0 <= i < without(s, id).len() && without(s, id)[i] == x;
            if s.last() != id && i == without(s, id).len() - 1 {
                assert(s[s.len() - 1] == x);
            } else {
                assert(without(t, id)[i] == x);
                assert(without(t, id).contains(x));
                let j = choose|j: int| 0 <= j < t.len() && t[j] == x;
                assert(s[j] == x);
            }
        }
        assert forall|x: NodeId| x != id && s.contains(x) implies #[trigger] without(s, id).contains(
            x,
        ) by {
            let j = choose|j: int| 0 <= j < s.len() && s[j] == x;
            if j < t.len() {
                assert(t[j] == x);
                assert(without(t, id).contains(x));
                let i = choose|i: int| 0 <= i < without(t, id).len() && without(t, id)[i] == x;
                assert(without(s, id)[i] == x);
            } else {
                assert(without(s, id).last() == x);
            }
        }
    }
}

/// Once a value is resolved the frame remembers it, the node is back in its
/// place, and while the value was being made the node was out of reach.
pub proof fn law_resolved_value_is_kept_for_the_frame<N, V, Env>(
    before: GraphView<N, V, Env>,
    after: GraphView<N, V, Env>,
    key: (NodeId, Seq<char>),
    node: (N, N),
    rest: (GraphView<N, V, Env>, GraphView<N, V, Env>),
    kept: V,
)
    requires
        resolved_by(before, after, key, node, rest, kept),
    ensures
        after.cache.contains_key(key),
        after.cache[key] == kept,
        after.nodes.contains_key(key.0),
        !rest.0.nodes.contains_key(key.0),
{
}

/// Where clones are equal, an output is resolved once per frame. Once it gave a
/// value, it gives the same one for as long as the frame remembers it, and
/// nothing is called; in the next frame the value is made anew. The node is in
/// its place each time.
pub proof fn law_resolved_once_per_frame<N, V: Clone, Env>(
    before: GraphView<N, V, Env>,
    after: GraphView<N, V, Env>,
    later: GraphView<N, V, Env>,
    again: GraphView<N, V, Env>,
    anew: GraphView<N, V, Env>,
    key: (NodeId, Seq<char>),
    first: Option<V>,
    second: Option<V>,
    third: Option<V>,
)
    requires
        clones_equal::<V>(),
        resolves(before, after, key, first),
        first is Some,
        later.cache.contains_key(key),
        later.cache[key] == after.cache[key],
        resolves(later, again, key, second),
        resolves(GraphView { cache: Map::empty(), ..again }, anew, key, third),
    ensures
        second == first,
        again == later,
        before.nodes.contains_key(key.0) ==> after.nodes.contains_key(key.0),
        again.nodes.contains_key(key.0) ==> third is Some && made(
            GraphView { cache: Map::empty(), ..again },
            anew,
            key,
            third->0,
        ) && anew.nodes.contains_key(key.0),
{
    if !before.cache.contains_key(key) {
        assert(made(before, after, key, first->0));
    }
}

/// A copy of the list.
pub fn copy_ids(t: &Vec<NodeId>) -> (r: Vec<NodeId>)
    ensures
        r@ == t@,
{
    let mut out: Vec<NodeId> = Vec::new();
    for i in 0..t.len()
        invariant
            out@ == t@.take(i as int),
    {
        out.push(t[i]);
        assert(out@ =~= t@.take(i + 1));
    }
    assert(t@.take(t@.len() as int) =~= t@);
    out
}

/// A copy of the list without any occurrence of `id`.
fn drop_id(t: &Vec<NodeId>, id: NodeId) -> (r: Vec<NodeId>)
    ensures
        r@ == without(t@, id),
{
    let mut out: Vec<NodeId> = Vec::new();
    assert(without(t@.take(0), id) =~= Seq::empty()) by {
        reveal(Seq::filter);
    }
    for i in 0..t.len()
        invariant
            out@ == without(t@.take(i as int), id),
    {
        proof {
            reveal(Seq::filter);
            assert(t@.take(i + 1).drop_last() =~= t@.take(i as int));
            assert(t@.take(i + 1).last() == t@[i as int]);
        }
        if t[i].0 != id.0 {
            out.push(t[i]);
        }
    }
    assert(t@.take(t@.len() as int) =~= t@);
    out
}

/// A port is the first one with its name; where there is none with that name there
/// is no such port.
pub proof fn law_first_port_of_a_name(
    inputs: Seq<InputPort>,
    outputs: Seq<OutputPort>,
    name: Seq<char>,
    i: int,
)
    requires
        0 <= i,
        forall|k: int| 0 <= k < i && k < inputs.len() ==> (#[trigger] inputs[k]).name@ != name,
        forall|k: int| 0 <= k < i && k < outputs.len() ==> (#[trigger] outputs[k]).name@ != name,
    ensures
        i < inputs.len() && inputs[i].name@ == name ==> input_named(inputs, name) == Some(
            inputs[i].kind,
        ),
        i >= inputs.len() ==> input_named(inputs, name) is None,
        i < outputs.len() && outputs[i].name@ == name ==> output_named(outputs, name) == Some(
            outputs[i].kind,
        ),
        i >= outputs.len() ==> output_named(outputs, name) is None,
    decreases i,
{
    if i > 0 {
        let a = if inputs.len() > 0 {
            inputs.drop_first()
        } else {
            inputs
        };
        let b = if outputs.len() > 0 {
            outputs.drop_first()
        } else {
            outputs
        };
        assert forall|k: int| 0 <= k < i - 1 && k < a.len() implies (#[trigger] a[k]).name@ != name by {
            assert(a[k] == inputs[k + 1]);
        }
        assert forall|k: int| 0 <= k < i - 1 && k < b.len() implies (#[trigger] b[k]).name@ != name by {
            assert(b[k] == outputs[k + 1]);
        }
        if inputs.len() > 0 {
            assert(inputs[0].name@ != name);
        }
        if outputs.len() > 0 {
            assert(outputs[0].name@ != name);
        }
        law_first_port_of_a_name(a, b, name, i - 1);
    }
}

/// A value link joins an output port to an input port of the same kind, both of
/// content or both of control. Otherwise the first thing that is wrong is
/// reported: that one of the nodes or of the ports is not there, the output's
/// first; that a port takes references, the input's first; that the kinds differ.
pub proof fn law_when_a_value_link_is_made<N: Node, V, Env>(
    g: GraphView<N, V, Env>,
    from: NodeId,
    from_port: &'static str,
    to: NodeId,
    to_port: &'static str,
)
    ensures
        ({
            let r = g.link_check(from, from_port, to, to_port);
            let output = output_named(g.nodes[from].out_ports(), from_port@);
            let input = input_named(g.nodes[to].in_ports(), to_port@);
            let source = g.nodes.contains_key(from) && output is Some;
            let both = source && g.nodes.contains_key(to) && input is Some;
            let values = |k: PortKind| k == PortKind::Content || k == PortKind::Control;
            &&& !g.nodes.contains_key(from) ==> r == Err::<(), _>(GraphError::UnknownNode(from))
            &&& g.nodes.contains_key(from) && output is None ==> r == Err::<(), _>(
                GraphError::UnknownOutputPort { node: from, port: from_port },
            )
            &&& source && !g.nodes.contains_key(to) ==> r == Err::<(), _>(
                GraphError::UnknownNode(to),
            )
            &&& source && g.nodes.contains_key(to) && input is None ==> r == Err::<(), _>(
                GraphError::UnknownInputPort { node: to, port: to_port },
            )
            &&& both && !values(input->0) ==> r == Err::<(), _>(
                GraphError::NotAValuePort { node: to, port: to_port },
            )
            &&& both && values(input->0) && !values(output->0) ==> r == Err::<(), _>(
                GraphError::NotAValuePort { node: from, port: from_port },
            )
            &&& both && values(input->0) && values(output->0) && input != output ==> r == Err::<
                (),
                _,
            >(GraphError::PortKindMismatch { input: input->0, output: output->0 })
            &&& both && values(input->0) && input == output ==> r is Ok
        }),
{
}

/// A single reference goes to a port for one, and a list of them to a port for a
/// list. Any other port refuses them, and so does one that is not there.
pub proof fn law_when_a_reference_is_made<N: Node, V, Env>(
    g: GraphView<N, V, Env>,
    to: NodeId,
    port: &'static str,
)
    ensures
        ({
            let kind = input_named(g.nodes[to].in_ports(), port@);
            let there = g.nodes.contains_key(to) && kind is Some;
            let one = g.hut_check(to, port);
            let list = g.list_check(to, port);
            &&& !g.nodes.contains_key(to) ==> one == Err::<(), _>(GraphError::UnknownNode(to))
                && list == Err::<(), _>(GraphError::UnknownNode(to))
            &&& g.nodes.contains_key(to) && kind is None ==> one == Err::<(), _>(
                GraphError::UnknownInputPort { node: to, port },
            ) && list == Err::<(), _>(GraphError::UnknownInputPort { node: to, port })
            &&& there && kind == Some(PortKind::Hut) ==> one is Ok
            &&& there && kind != Some(PortKind::Hut) ==> one == Err::<(), _>(
                GraphError::NotAReferencePort { node: to, port },
            )
            &&& there && kind == Some(PortKind::HutList) ==> list is Ok
            &&& there && kind != Some(PortKind::HutList) ==> list == Err::<(), _>(
                GraphError::WrongReferenceArity { node: to, port, expected: kind->0 },
            )
        }),
{
}

/// Removing a node leaves the other nodes, every link and reference between
/// others, and the order of what lists refer to.
pub proof fn law_removal_leaves_the_others<N, V, Env>(
    g: GraphView<N, V, Env>,
    id: NodeId,
    at: NodeId,
    port: Seq<char>,
)
    ensures
        ({
            let t = g.without_node(id);
            let key = (at, port);
            &&& at != id ==> (t.nodes.contains_key(at) <==> g.nodes.contains_key(at))
            &&& at != id && g.nodes.contains_key(at) ==> t.nodes[at] == g.nodes[at]
            &&& at != id && g.links.contains_key(key) && g.links[key].0 != id
                ==> t.links.contains_key(key) && t.links[key] == g.links[key]
            &&& at != id && g.hut_refs.contains_key(key) && g.hut_refs[key] != id
                ==> t.hut_refs.contains_key(key) && t.hut_refs[key] == g.hut_refs[key]
            &&& at != id && g.hut_lists.contains_key(key) && !g.hut_lists[key].contains(id)
                ==> t.hut_list(at, port) == g.hut_lists[key]
            &&& at != id && g.hut_lists.contains_key(key) && g.hut_lists[key].len() > 0
                && g.hut_lists[key].last() == id ==> t.hut_list(at, port) == without(
                g.hut_lists[key].drop_last(),
                id,
            )
            &&& t.next_id == g.next_id && t.cache == g.cache && t.env == g.env
        }),
{
    let key = (at, port);
    if at != id && g.hut_lists.contains_key(key) {
        let list = g.hut_lists[key];
        if !list.contains(id) {
            lemma_without_none(list, id);
        }
        if list.len() > 0 && list.last() == id {
            law_list_without_a_node(list.drop_last(), id, id);
            assert(list.drop_last().push(id) =~= list);
        }
    }
}

proof fn lemma_without_none(s: Seq<NodeId>, id: NodeId)
    requires
        !s.contains(id),
    ensures
        without(s, id) == s,
    decreases s.len(),
{
    reveal(Seq::filter);
    if s.len() > 0 {
        let t = s.drop_last();
        assert forall|i: int| 0 <= i < t.len() implies t[i] != id by {
            assert(s.contains(s[i]));
        }
        lemma_without_none(t, id);
        assert(s.contains(s.last()));
        assert(s =~= t.push(s.last()));
    }
}

/// A list without a node has the other nodes left, in their order.
pub proof fn law_list_without_a_node(s: Seq<NodeId>, id: NodeId, more: NodeId)
    ensures
        without(Seq::empty(), id) == Seq::<NodeId>::empty(),
        more == id ==> without(s.push(more), id) == without(s, id),
        more != id ==> without(s.push(more), id) == without(s, id).push(more),
{
    reveal(Seq::filter);
    assert(s.push(more).drop_last() =~= s);
}

/// A call that resolves a value is lent all of the graph but the node itself, and
/// what it makes of that stays.
pub proof fn law_call_is_lent_the_rest<N, V, Env>(
    before: GraphView<N, V, Env>,
    after: GraphView<N, V, Env>,
    key: (NodeId, Seq<char>),
    node: (N, N),
    rest: (GraphView<N, V, Env>, GraphView<N, V, Env>),
    kept: V,
    other: NodeId,
)
    requires
        resolved_by(before, after, key, node, rest, kept),
    ensures
        node.0 == before.nodes[key.0],
        after.nodes[key.0] == node.1,
        other != key.0 ==> {
            &&& rest.0.nodes.contains_key(other) <==> before.nodes.contains_key(other)
            &&& before.nodes.contains_key(other) ==> rest.0.nodes[other] == before.nodes[other]
            &&& after.nodes.contains_key(other) <==> rest.1.nodes.contains_key(other)
            &&& rest.1.nodes.contains_key(other) ==> after.nodes[other] == rest.1.nodes[other]
        },
        rest.0.links == before.links && rest.0.hut_refs == before.hut_refs && rest.0.hut_lists
            == before.hut_lists && rest.0.cache == before.cache && rest.0.env == before.env,
        after.links == rest.1.links && after.hut_refs == rest.1.hut_refs && after.hut_lists
            == rest.1.hut_lists && after.env == rest.1.env,
        forall|k: (NodeId, Seq<char>)|
            k != key ==> (#[trigger] after.cache.contains_key(k) <==> rest.1.cache.contains_key(k)),
{
}

} // verus!
