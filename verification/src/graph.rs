//! The dependency graph: an append-only registry of GPU work nodes and a
//! flat set of dependency edges, with a deterministic topological
//! execution order.

use vstd::prelude::*;

use crate::order::edges_in_range;
use crate::order::eligible;
use crate::order::greedy_order;
use crate::order::is_linearization;
use crate::order::is_min_first;
use crate::order::linearizable;

verus! {

/// What can go wrong while building or executing the graph.
#[derive(Clone, Copy, Debug, PartialEq, Eq, Structural)]
pub enum GraphError {
    /// An operation referenced a node handle that does not exist.
    InvalidDependency,
    /// The edge set contains a cycle, so no execution order exists.
    CyclicDependency,
}

/// The kind of GPU work a node issues when it executes.
#[derive(Clone, Copy, Debug, PartialEq, Eq, Structural)]
pub enum WorkKind {
    Draw,
    Present,
}

/// The per-frame command-recording context.  Executing a node appends
/// the work it issues; the driver hands the recorded sequence to the
/// backend in this exact order.
pub struct Context {
    issued: Vec<WorkKind>,
}

impl View for Context {
    type V = Seq<WorkKind>;

    closed spec fn view(&self) -> Seq<WorkKind> {
        self.issued@
    }
}

impl Context {
    /// An empty recording context.
    pub fn new() -> (r: Context)
        ensures
            r@ == Seq::<WorkKind>::empty(),
    {
        Context { issued: Vec::new() }
    }

    /// The work recorded so far, in issue order.
    pub fn issued(&self) -> (r: &Vec<WorkKind>)
        ensures
            r@ == self@,
    {
        &self.issued
    }

    fn record(&mut self, kind: WorkKind)
        ensures
            final(self)@ == old(self)@.push(kind),
    {
        self.issued.push(kind);
    }
}

/// A node that issues a draw into the recording context.
pub struct DrawNode {}

impl DrawNode {
    pub fn execute(&self, ctx: &mut Context)
        ensures
            final(ctx)@ == old(ctx)@.push(WorkKind::Draw),
    {
        ctx.record(WorkKind::Draw);
    }
}

/// A node that issues a presentation request into the recording context.
pub struct PresentNode {}

impl PresentNode {
    pub fn execute(&self, ctx: &mut Context)
        ensures
            final(ctx)@ == old(ctx)@.push(WorkKind::Present),
    {
        ctx.record(WorkKind::Present);
    }
}

/// A schedulable unit of GPU work: the closed set of node kinds the
/// graph can register.
pub enum Node {
    Draw(DrawNode),
    Present(PresentNode),
    /// A placeholder that issues nothing.
    NoOp,
}

impl Node {
    /// The work this node issues when executed.
    pub open spec fn issues(&self) -> Seq<WorkKind> {
        match self {
            Node::Draw(_) => seq![WorkKind::Draw],
            Node::Present(_) => seq![WorkKind::Present],
            Node::NoOp => Seq::empty(),
        }
    }

    /// Executes this node against the recording context.
    pub fn execute(&self, ctx: &mut Context)
        ensures
            final(ctx)@ == old(ctx)@ + self.issues(),
    {
        match self {
            Node::Draw(d) => d.execute(ctx),
            Node::Present(p) => p.execute(ctx),
            Node::NoOp => {},
        }
        proof {
            assert(ctx@ =~= old(ctx)@ + self.issues());
        }
    }
}

/// The registry of nodes and dependency edges.
pub struct Graph {
    nodes: Vec<Node>,
    edges: Vec<(usize, usize)>,
}

/// The mathematical content of a [`Graph`]: the registered nodes, by
/// handle, and the dependency edges `(producer, consumer)`.
pub struct GraphView {
    pub nodes: Seq<Node>,
    pub edges: Seq<(usize, usize)>,
}

impl View for Graph {
    type V = GraphView;

    closed spec fn view(&self) -> GraphView {
        GraphView { nodes: self.nodes@, edges: self.edges@ }
    }
}

impl Graph {
    /// Every edge endpoint names a registered node.  Established by the
    /// constructor and preserved by every mutation.
    pub open spec fn wf(&self) -> bool {
        edges_in_range(self@.nodes.len() as int, self@.edges)
    }

    /// An empty graph: no nodes, no edges.
    pub fn new() -> (r: Graph)
        ensures
            r.wf(),
            r@.nodes == Seq::<Node>::empty(),
            r@.edges == Seq::<(usize, usize)>::empty(),
    {
        Graph { nodes: Vec::new(), edges: Vec::new() }
    }

    /// The number of registered nodes; handles are `0 .. node_count()`.
    pub fn node_count(&self) -> (r: usize)
        ensures
            r == self@.nodes.len(),
    {
        self.nodes.len()
    }

    /// Registers `node` and returns its handle, the registry size before
    /// insertion; for each handle in `deps`, inserts the dependency edge
    /// `(dependency, new handle)`.  Rejects the whole operation with
    /// [`GraphError::InvalidDependency`], changing nothing, if any
    /// dependency handle does not exist.
    pub fn add(&mut self, node: Node, deps: &[usize]) -> (r: Result<usize, GraphError>)
        requires
            old(self).wf(),
        ensures
            final(self).wf(),
            match r {
                Ok(id) => {
                    &&& forall|i: int| 0 <= i < deps@.len() ==> (#[trigger] deps@[i])
                        < old(self)@.nodes.len()
                    &&& id == old(self)@.nodes.len()
                    &&& final(self)@.nodes == old(self)@.nodes.push(node)
                    &&& final(self)@.edges == old(self)@.edges + deps@.map_values(
                        (|d: usize| (d, id)),
                    )
                },
                Err(e) => {
                    &&& e == GraphError::InvalidDependency
                    &&& exists|i: int| 0 <= i < deps@.len() && (#[trigger] deps@[i])
                        >= old(self)@.nodes.len()
                    &&& final(self)@.nodes == old(self)@.nodes
                    &&& final(self)@.edges == old(self)@.edges
                },
            },
    {
        let id = self.nodes.len();
        let mut i: usize = 0;
        while i < deps.len()
            invariant
                i <= deps@.len(),
                id == self@.nodes.len(),
                self.wf(),
                self@.nodes == old(self)@.nodes,
                self@.edges == old(self)@.edges,
                forall|j: int| 0 <= j < i ==> (#[trigger] deps@[j]) < id,
            decreases deps@.len() - i,
        {
            if deps[i] >= id {
                return Err(GraphError::InvalidDependency);
            }
            i += 1;
        }
        self.nodes.push(node);
        let ghost mid_nodes = self@.nodes;
        let ghost base_edges = self@.edges;
        let mut k: usize = 0;
        while k < deps.len()
            invariant
                k <= deps@.len(),
                self@.nodes == mid_nodes,
                id < self@.nodes.len(),
                forall|j: int| 0 <= j < deps@.len() ==> (#[trigger] deps@[j]) < id,
                self@.edges == base_edges + deps@.take(k as int).map_values((|d: usize| (d, id))),
            decreases deps@.len() - k,
        {
            let d = deps[k];
            self.edges.push((d, id));
            proof {
                assert(deps@.take(k as int).map_values((|d: usize| (d, id))).push((deps@[k as int], id))
                    =~= deps@.take(k + 1 as int).map_values((|d: usize| (d, id))));
                assert(self@.edges =~= base_edges + deps@.take(k + 1 as int).map_values(
                    (|d: usize| (d, id)),
                ));
            }
            k += 1;
        }
        proof {
            assert(deps@.take(deps@.len() as int) =~= deps@);
            assert(self@.edges =~= base_edges + deps@.map_values((|d: usize| (d, id))));
        }
        Ok(id)
    }

    /// Inserts the dependency edge `(producer, consumer)`: `producer`
    /// must execute before `consumer`.  Rejects the edge with
    /// [`GraphError::InvalidDependency`], changing nothing, if either
    /// handle does not exist.  An edge that closes a cycle is accepted
    /// here; the cycle is detected when an order is requested.
    pub fn add_edge(&mut self, producer: usize, consumer: usize) -> (r: Result<(), GraphError>)
        requires
            old(self).wf(),
        ensures
            final(self).wf(),
            match r {
                Ok(_) => {
                    &&& producer < old(self)@.nodes.len()
                    &&& consumer < old(self)@.nodes.len()
                    &&& final(self)@.nodes == old(self)@.nodes
                    &&& final(self)@.edges == old(self)@.edges.push((producer, consumer))
                },
                Err(e) => {
                    &&& e == GraphError::InvalidDependency
                    &&& (producer >= old(self)@.nodes.len() || consumer >= old(self)@.nodes.len())
                    &&& final(self)@.nodes == old(self)@.nodes
                    &&& final(self)@.edges == old(self)@.edges
                },
            },
    {
        let count = self.nodes.len();
        if producer >= count || consumer >= count {
            return Err(GraphError::InvalidDependency);
        }
        self.edges.push((producer, consumer));
        Ok(())
    }
}

/// Eligibility read off the worklist's placed flags: every edge into
/// `v` has its producer already placed.
spec fn eligible_flags(es: Seq<(usize, usize)>, placed: Seq<bool>, v: usize) -> bool {
    forall|k: int| 0 <= k < es.len() && (#[trigger] es[k]).1 == v ==> placed[es[k].0 as int]
}

/// The placed flags and the order built so far describe the same set of
/// finished nodes, so both notions of eligibility agree.
proof fn lemma_flags_match(
    es: Seq<(usize, usize)>,
    placed: Seq<bool>,
    done: Seq<usize>,
    v: usize,
)
    requires
        edges_in_range(placed.len() as int, es),
        forall|u: usize| u < placed.len() ==> (placed[u as int] == done.contains(u)),
    ensures
        eligible_flags(es, placed, v) == eligible(es, done, v),
{
    if eligible_flags(es, placed, v) {
        assert forall|k: int| 0 <= k < es.len() && (#[trigger] es[k]).1 == v implies done.contains(
            es[k].0,
        ) by {
            assert(placed[es[k].0 as int]);
        }
    }
    if eligible(es, done, v) {
        assert forall|k: int|
            0 <= k < es.len() && (#[trigger] es[k]).1 == v implies placed[es[k].0 as int] by {
            assert(done.contains(es[k].0));
        }
    }
}

impl Graph {
    /// Whether every producer feeding `v` is already placed.
    fn node_ready(&self, v: usize, placed: &Vec<bool>) -> (r: bool)
        requires
            self.wf(),
            placed@.len() == self@.nodes.len(),
        ensures
            r == eligible_flags(self@.edges, placed@, v),
    {
        let mut k: usize = 0;
        while k < self.edges.len()
            invariant
                self.wf(),
                placed@.len() == self@.nodes.len(),
                k <= self@.edges.len(),
                forall|j: int|
                    0 <= j < k && (#[trigger] self@.edges[j]).1 == v ==> placed@[self@.edges[j].0 as int],
            decreases self@.edges.len() - k,
        {
            let e = self.edges[k];
            if e.1 == v && !placed[e.0] {
                return false;
            }
            k += 1;
        }
        true
    }

    /// The lowest unplaced handle whose producers are all placed, if
    /// any node can still run.
    fn find_ready(&self, placed: &Vec<bool>) -> (r: Option<usize>)
        requires
            self.wf(),
            placed@.len() == self@.nodes.len(),
        ensures
            match r {
                Some(v) => {
                    &&& v < self@.nodes.len()
                    &&& !placed@[v as int]
                    &&& eligible_flags(self@.edges, placed@, v)
                    &&& forall|u: usize|
                        u < v ==> placed@[u as int] || !eligible_flags(self@.edges, placed@, u)
                },
                None => forall|u: usize|
                    u < self@.nodes.len() ==> placed@[u as int] || !eligible_flags(
                        self@.edges,
                        placed@,
                        u,
                    ),
            },
    {
        let n = self.nodes.len();
        let mut v: usize = 0;
        while v < n
            invariant
                self.wf(),
                placed@.len() == self@.nodes.len(),
                n == self@.nodes.len(),
                v <= n,
                forall|u: usize|
                    u < v ==> placed@[u as int] || !eligible_flags(self@.edges, placed@, u),
            decreases n - v,
        {
            if !placed[v] && self.node_ready(v, placed) {
                return Some(v);
            }
            v += 1;
        }
        None
    }

    /// One valid linearization of all registered nodes: every edge's
    /// producer appears strictly before its consumer, ties broken by the
    /// lowest handle.  Fails with [`GraphError::CyclicDependency`], and
    /// only then, if the edge set contains a cycle.
    pub fn topological_order(&self) -> (r: Result<Vec<usize>, GraphError>)
        requires
            self.wf(),
        ensures
            ({
                let n = self@.nodes.len() as int;
                let es = self@.edges;
                match r {
                    Ok(order) => {
                        &&& linearizable(n, es)
                        &&& is_linearization(n, es, order@)
                        &&& is_min_first(n, es, order@)
                        &&& order@ == greedy_order(n, es)
                    },
                    Err(e) => {
                        &&& e == GraphError::CyclicDependency
                        &&& !linearizable(n, es)
                    },
                }
            }),
    {
        let n = self.nodes.len();
        let mut placed: Vec<bool> = Vec::new();
        let mut q: usize = 0;
        while q < n
            invariant
                q <= n,
                placed@.len() == q,
                forall|j: int| 0 <= j < q ==> !(#[trigger] placed@[j]),
            decreases n - q,
        {
            placed.push(false);
            q += 1;
        }
        let mut order: Vec<usize> = Vec::new();
        let mut stuck = false;
        while !stuck && order.len() < n
            invariant
                self.wf(),
                n == self@.nodes.len(),
                placed@.len() == n,
                order@.len() <= n,
                forall|i: int| 0 <= i < order@.len() ==> (#[trigger] order@[i]) < n,
                order@.no_duplicates(),
                forall|u: usize| u < n ==> (placed@[u as int] == order@.contains(u)),
                forall|i: int|
                    0 <= i < order@.len() ==> #[trigger] eligible(
                        self@.edges,
                        order@.take(i),
                        order@[i],
                    ),
                is_min_first(n as int, self@.edges, order@),
                stuck ==> forall|u: usize|
                    u < n ==> placed@[u as int] || !eligible_flags(self@.edges, placed@, u),
            decreases n - order@.len() + (if stuck { 0int } else { 1int }),
        {
            match self.find_ready(&placed) {
                Some(v) => {
                    let ghost old_order = order@;
                    let ghost old_placed = placed@;
                    placed[v] = true;
                    order.push(v);
                    proof {
                        let es = self@.edges;
                        let len0 = old_order.len() as int;
                        lemma_flags_match(es, old_placed, old_order, v);
                        assert(!old_order.contains(v));
                        assert(eligible(es, old_order, v));
                        assert(order@.take(len0) =~= old_order);
                        assert forall|i: int| 0 <= i < len0 implies order@.take(i)
                            == old_order.take(i) by {
                            assert(order@.take(i) =~= old_order.take(i));
                        }
                        assert(order@.no_duplicates()) by {
                            assert forall|i: int, j: int|
                                0 <= i < order@.len() && 0 <= j < order@.len() && i
                                    != j implies order@[i] != order@[j] by {
                                if i < len0 && j < len0 {
                                    assert(old_order[i] != old_order[j]);
                                } else if i < len0 {
                                    assert(old_order.contains(old_order[i]));
                                } else if j < len0 {
                                    assert(old_order.contains(old_order[j]));
                                }
                            }
                        }
                        assert forall|u: usize| u < n implies (placed@[u as int] == order@.contains(
                            u,
                        )) by {
                            if u == v {
                                assert(order@[len0] == v);
                                assert(order@.contains(v));
                            } else {
                                if old_order.contains(u) {
                                    let j = choose|j: int|
                                        0 <= j < old_order.len() && old_order[j] == u;
                                    assert(order@[j] == u);
                                    assert(order@.contains(u));
                                } else if order@.contains(u) {
                                    let j = choose|j: int|
                                        0 <= j < order@.len() && order@[j] == u;
                                    assert(j < len0);
                                    assert(old_order.contains(u));
                                }
                            }
                        }
                        assert forall|i: int| 0 <= i < order@.len() implies #[trigger] eligible(
                            es,
                            order@.take(i),
                            order@[i],
                        ) by {
                            if i < len0 {
                                assert(eligible(es, old_order.take(i), old_order[i]));
                            } else {
                                assert(order@.take(i) == old_order);
                            }
                        }
                        assert(is_min_first(n as int, es, order@)) by {
                            assert forall|i: int, u: usize|
                                0 <= i < order@.len() && u < order@[i] && eligible(
                                    es,
                                    order@.take(i),
                                    u,
                                ) implies #[trigger] order@.take(i).contains(u) by {
                                if i < len0 {
                                    assert(eligible(es, old_order.take(i), u));
                                    assert(old_order.take(i).contains(u));
                                    let j = choose|j: int|
                                        0 <= j < old_order.take(i).len() && old_order.take(i)[j]
                                            == u;
                                    assert(order@.take(i)[j] == u);
                                } else {
                                    assert(order@.take(i) == old_order);
                                    lemma_flags_match(es, old_placed, old_order, u);
                                    assert(old_placed[u as int] || !eligible_flags(
                                        es,
                                        old_placed,
                                        u,
                                    ));
                                    assert(old_order.contains(u));
                                }
                            }
                        }
                    }
                },
                None => {
                    stuck = true;
                },
            }
        }
        if order.len() == n {
            proof {
                let es = self@.edges;
                crate::order::lemma_bounded_distinct_full(order@, n as int);
                assert(is_linearization(n as int, es, order@));
                crate::order::lemma_greedy_order_is(n as int, es, order@);
            }
            Ok(order)
        } else {
            proof {
                let es = self@.edges;
                assert(stuck);
                assert forall|u: usize| u < n && !order@.contains(u) implies !eligible(
                    es,
                    order@,
                    u,
                ) by {
                    assert(placed@[u as int] || !eligible_flags(es, placed@, u));
                    lemma_flags_match(es, placed@, order@, u);
                }
                crate::order::lemma_stuck_no_linearization(n as int, es, order@);
            }
            Err(GraphError::CyclicDependency)
        }
    }

    /// Computes the execution order and executes every node against
    /// `ctx`, in that order, synchronously.  On a cycle it fails with
    /// [`GraphError::CyclicDependency`] and executes nothing: the
    /// context is left untouched.
    pub fn execute(&self, ctx: &mut Context) -> (r: Result<(), GraphError>)
        requires
            self.wf(),
        ensures
            ({
                let n = self@.nodes.len() as int;
                let es = self@.edges;
                match r {
                    Ok(_) => {
                        &&& linearizable(n, es)
                        &&& final(ctx)@ == old(ctx)@ + issued_of(self@.nodes, greedy_order(n, es))
                    },
                    Err(e) => {
                        &&& e == GraphError::CyclicDependency
                        &&& !linearizable(n, es)
                        &&& final(ctx)@ == old(ctx)@
                    },
                }
            }),
    {
        let order = match self.topological_order() {
            Ok(o) => o,
            Err(e) => { return Err(e); },
        };
        let mut i: usize = 0;
        while i < order.len()
            invariant
                self.wf(),
                is_linearization(self@.nodes.len() as int, self@.edges, order@),
                i <= order@.len(),
                ctx@ == old(ctx)@ + issued_of(self@.nodes, order@.take(i as int)),
            decreases order@.len() - i,
        {
            let h = order[i];
            self.nodes[h].execute(ctx);
            proof {
                assert(order@.take(i as int + 1).drop_last() =~= order@.take(i as int));
                assert(order@.take(i as int + 1).last() == order@[i as int]);
                assert(ctx@ =~= old(ctx)@ + issued_of(self@.nodes, order@.take(i as int + 1)));
            }
            i += 1;
        }
        proof {
            assert(order@.take(order@.len() as int) =~= order@);
        }
        Ok(())
    }
}

/// The work issued when the nodes named by `order` execute in turn.
pub open spec fn issued_of(nodes: Seq<Node>, order: Seq<usize>) -> Seq<WorkKind>
    decreases order.len(),
{
    if order.len() == 0 {
        Seq::empty()
    } else {
        issued_of(nodes, order.drop_last()) + nodes[order.last() as int].issues()
    }
}

/// The law behind [`Graph::add`] with an empty dependency set: the
/// fresh handle is immediately eligible — no edge reaches it — and if
/// the graph was linearizable before, the grown graph has a valid order
/// in which the fresh handle runs first.
pub proof fn lemma_add_no_deps_first(before: GraphView, after: GraphView, id: usize)
    requires
        edges_in_range(before.nodes.len() as int, before.edges),
        after.nodes.len() <= usize::MAX,
        after.edges == before.edges,
        after.nodes.len() == before.nodes.len() + 1,
        id == before.nodes.len(),
    ensures
        eligible(after.edges, Seq::<usize>::empty(), id),
        linearizable(before.nodes.len() as int, before.edges) ==> exists|o: Seq<usize>|
            #[trigger] is_linearization(after.nodes.len() as int, after.edges, o) && o.len() > 0
                && o[0] == id,
{
    assert forall|k: int|
        0 <= k < after.edges.len() && (#[trigger] after.edges[k]).1 == id implies Seq::<
        usize,
    >::empty().contains(after.edges[k].0) by {
        assert(before.edges[k].1 < id);
    }
    if linearizable(before.nodes.len() as int, before.edges) {
        crate::order::lemma_fresh_node_first_exists(id, before.edges);
    }
}

} // verus!
