//! The shape of the processing graph: which nodes exist, which feed which, and
//! which one is the master whose output reaches the device.
//!
//! Nodes are numbered in the order they are added. An edge `from -> to` means
//! the output of `from` is summed into the input of `to`. Before rendering, the
//! nodes are put in an order in which every node comes after all the nodes that
//! feed it.

use vstd::prelude::*;

verus! {

/// A node's handle: its index in the order nodes were added.
#[derive(Clone, Copy, Debug, PartialEq, Eq, Hash)]
pub struct NodeId(pub usize);

/// Some edge into `v` comes from a node in `s`.
#[verifier::opaque]
pub open spec fn fed_from(edges: Seq<(usize, usize)>, s: Set<usize>, v: usize) -> bool {
    exists|k: int| 0 <= k < edges.len() && edges[k].1 == v && s.contains(edges[k].0)
}

/// Every node in `s` exists and is fed by another node in `s`.
pub open spec fn is_stuck_set(n: nat, edges: Seq<(usize, usize)>, s: Set<usize>) -> bool {
    &&& exists|v: usize| s.contains(v)
    &&& forall|v: usize| #[trigger] s.contains(v) ==> v < n && fed_from(edges, s, v)
}

/// Whether some set of nodes is stuck: every node in it is fed by another
/// node in it, so no order can put all of them after their inputs (a cycle).
pub open spec fn has_stuck_set(n: nat, edges: Seq<(usize, usize)>) -> bool {
    exists|s: Set<usize>| is_stuck_set(n, edges, s)
}

/// `order` lists each of the nodes `0 .. n` exactly once, and every node comes
/// after every node that feeds it.
pub open spec fn is_processing_order(n: nat, edges: Seq<(usize, usize)>, order: Seq<usize>) -> bool {
    &&& forall|i: int, j: int| 0 <= i < j < order.len() ==> order[i] != order[j]
    &&& forall|i: int| 0 <= i < order.len() ==> #[trigger] order[i] < n
    &&& forall|v: usize| v < n ==> #[trigger] order.contains(v)
    &&& forall|k: int, i: int, j: int|
        #![trigger edges[k], order[i], order[j]]
        0 <= k < edges.len() && 0 <= i < order.len() && 0 <= j < order.len() && order[i]
            == edges[k].0 && order[j] == edges[k].1 ==> edges[k].0 != edges[k].1 && i < j
}

/// The nodes feeding `node`, one per edge, in the order the edges were made.
pub open spec fn spec_upstream(edges: Seq<(usize, usize)>, node: usize) -> Seq<usize>
    decreases edges.len(),
{
    if edges.len() == 0 {
        Seq::empty()
    } else {
        let rest = spec_upstream(edges.drop_last(), node);
        if edges.last().1 == node {
            rest.push(edges.last().0)
        } else {
            rest
        }
    }
}

/// The number of `true` entries.
pub open spec fn count_true(s: Seq<bool>) -> nat
    decreases s.len(),
{
    if s.len() == 0 {
        0
    } else {
        count_true(s.drop_last()) + if s.last() {
            1nat
        } else {
            0nat
        }
    }
}

proof fn lemma_count_true_bounds(s: Seq<bool>)
    ensures
        count_true(s) <= s.len(),
        count_true(s) < s.len() ==> exists|i: int| 0 <= i < s.len() && !#[trigger] s[i],
    decreases s.len(),
{
    if s.len() > 0 {
        lemma_count_true_bounds(s.drop_last());
        if count_true(s) < s.len() && s.last() {
            let i = choose|i: int| 0 <= i < s.drop_last().len() && !#[trigger] s.drop_last()[i];
            assert(!s[i]);
        }
        if count_true(s) < s.len() && !s.last() {
            assert(!s[s.len() - 1]);
        }
    }
}

proof fn lemma_count_true_set(s: Seq<bool>, i: int)
    requires
        0 <= i < s.len(),
        !s[i],
    ensures
        count_true(s.update(i, true)) == count_true(s) + 1,
    decreases s.len(),
{
    if i < s.len() - 1 {
        lemma_count_true_set(s.drop_last(), i);
        assert(s.update(i, true).drop_last() =~= s.drop_last().update(i, true));
    } else {
        assert(s.update(i, true).drop_last() =~= s.drop_last());
    }
}

/// A processing order and a stuck set cannot both exist: the node of a stuck
/// set that comes first in the order would be fed by a later node.
pub proof fn lemma_order_excludes_stuck_set(n: nat, edges: Seq<(usize, usize)>, order: Seq<usize>)
    requires
        is_processing_order(n, edges, order),
    ensures
        !has_stuck_set(n, edges),
{
    if has_stuck_set(n, edges) {
        let s = choose|s: Set<usize>| is_stuck_set(n, edges, s);
        let w = choose|v: usize| s.contains(v);
        assert(order.contains(w));
        let i0 = choose|i: int| 0 <= i < order.len() && order[i] == w;
        let p = lemma_first_member(order, s, i0);
        let v = order[p];
        assert(s.contains(v));
        assert(fed_from(edges, s, v));
        assert(exists|k: int| 0 <= k < edges.len() && edges[k].1 == v && s.contains(edges[k].0)) by {
            reveal(fed_from);
        }
        let k = choose|k: int| 0 <= k < edges.len() && edges[k].1 == v && s.contains(edges[k].0);
        let u = edges[k].0;
        assert(u < n);
        assert(order.contains(u));
        let i = choose|i: int| 0 <= i < order.len() && order[i] == u;
        assert(edges[k].0 != edges[k].1 && i < p);
        assert(!s.contains(order[i]));
    }
}

proof fn lemma_first_member(order: Seq<usize>, s: Set<usize>, i0: int) -> (p: int)
    requires
        0 <= i0 < order.len(),
        s.contains(order[i0]),
    ensures
        0 <= p <= i0,
        s.contains(order[p]),
        forall|q: int| 0 <= q < p ==> !s.contains(#[trigger] order[q]),
    decreases i0,
{
    if exists|q: int| 0 <= q < i0 && s.contains(#[trigger] order[q]) {
        let q = choose|q: int| 0 <= q < i0 && s.contains(#[trigger] order[q]);
        lemma_first_member(order, s, q)
    } else {
        i0
    }
}

/// The edges that end at `node`.
pub open spec fn edge_into(node: usize) -> spec_fn((usize, usize)) -> bool {
    |e: (usize, usize)| e.1 == node
}

/// The node an edge starts from.
pub open spec fn edge_source() -> spec_fn((usize, usize)) -> usize {
    |e: (usize, usize)| e.0
}

/// The upstream list of `node` is the source of every edge into `node`, each
/// edge once, in the order the edges were made: every edge into `node` puts its
/// source on the list, the list holds one entry per such edge, and each entry
/// is the source of an edge into `node`.
pub proof fn lemma_upstream_lists_every_feeder(edges: Seq<(usize, usize)>, node: usize)
    ensures
        spec_upstream(edges, node) == edges.filter(edge_into(node)).map_values(edge_source()),
        spec_upstream(edges, node).len() == edges.filter(edge_into(node)).len(),
        forall|k: int|
            0 <= k < edges.len() && (#[trigger] edges[k]).1 == node ==> spec_upstream(
                edges,
                node,
            ).contains(edges[k].0),
        forall|i: int|
            0 <= i < spec_upstream(edges, node).len() ==> exists|k: int|
                0 <= k < edges.len() && #[trigger] edges[k] == (
                    #[trigger] spec_upstream(edges, node)[i],
                    node,
                ),
    decreases edges.len(),
{
    if edges.len() > 0 {
        let init = edges.drop_last();
        let e = edges.last();
        lemma_upstream_lists_every_feeder(init, node);
        reveal(Seq::filter);
        let rest = spec_upstream(init, node);
        let f = init.filter(edge_into(node));
        assert(edges.filter(edge_into(node)) == if e.1 == node {
            f.push(e)
        } else {
            f
        });
        if e.1 == node {
            assert(f.push(e).map_values(edge_source()) =~= f.map_values(edge_source()).push(e.0));
        }
        let u = spec_upstream(edges, node);
        assert forall|k: int| 0 <= k < edges.len() && (#[trigger] edges[k]).1 == node implies u.contains(
            edges[k].0,
        ) by {
            if k < init.len() {
                assert(init[k] == edges[k]);
                let i = choose|i: int| 0 <= i < rest.len() && rest[i] == init[k].0;
                assert(u[i] == rest[i]);
            } else {
                assert(u[u.len() - 1] == e.0);
            }
        }
        assert forall|i: int| 0 <= i < u.len() implies exists|k: int|
            0 <= k < edges.len() && #[trigger] edges[k] == (#[trigger] u[i], node) by {
            if i < rest.len() {
                assert(u[i] == rest[i]);
                let k = choose|k: int| 0 <= k < init.len() && #[trigger] init[k] == (rest[i], node);
                assert(edges[k] == init[k]);
            } else {
                assert(edges[edges.len() - 1] == (u[i], node));
            }
        }
    }
}

/// The processing graph's topology.
pub struct Routing {
    node_count: usize,
    edges: Vec<(usize, usize)>,
    master: Option<usize>,
}

impl Routing {
    /// Number of nodes.
    pub closed spec fn spec_node_count(&self) -> nat {
        self.node_count as nat
    }

    /// The edges, in the order they were made; no edge appears twice.
    pub closed spec fn spec_edges(&self) -> Seq<(usize, usize)> {
        self.edges@
    }

    /// The node whose output is the graph's output.
    pub closed spec fn spec_master(&self) -> Option<usize> {
        self.master
    }

    /// Edges and the master refer to existing nodes.
    pub closed spec fn well_formed(&self) -> bool {
        &&& forall|k: int|
            0 <= k < self.edges@.len() ==> #[trigger] self.edges@[k].0 < self.node_count
                && self.edges@[k].1 < self.node_count
        &&& self.master matches Some(m) ==> m < self.node_count
    }

    /// No nodes, no edges, no master.
    pub fn new() -> (r: Self)
        ensures
            r.well_formed(),
            r.spec_node_count() == 0,
            r.spec_edges() == Seq::<(usize, usize)>::empty(),
            r.spec_master() == None::<usize>,
    {
        Routing { node_count: 0, edges: Vec::new(), master: None }
    }

    pub fn node_count(&self) -> (n: usize)
        ensures
            n == self.spec_node_count(),
    {
        self.node_count
    }

    pub fn master(&self) -> (m: Option<NodeId>)
        ensures
            match m {
                Some(id) => self.spec_master() == Some(id.0),
                None => self.spec_master() == None::<usize>,
            },
    {
        match self.master {
            Some(m) => Some(NodeId(m)),
            None => None,
        }
    }

    /// Add a node; its handle is the next index.
    pub fn add_node(&mut self) -> (id: NodeId)
        requires
            old(self).well_formed(),
            old(self).spec_node_count() < usize::MAX,
        ensures
            final(self).well_formed(),
            id.0 == old(self).spec_node_count(),
            final(self).spec_node_count() == old(self).spec_node_count() + 1,
            final(self).spec_edges() == old(self).spec_edges(),
            final(self).spec_master() == old(self).spec_master(),
    {
        let id = self.node_count;
        self.node_count = self.node_count + 1;
        NodeId(id)
    }

    /// Feed the output of `from` into the input of `to`. Refused (`false`) when
    /// either node does not exist; connecting an existing edge again changes
    /// nothing.
    pub fn connect(&mut self, from: NodeId, to: NodeId) -> (ok: bool)
        requires
            old(self).well_formed(),
        ensures
            final(self).well_formed(),
            ok == (from.0 < old(self).spec_node_count() && to.0 < old(self).spec_node_count()),
            final(self).spec_edges() == if ok && !old(self).spec_edges().contains((from.0, to.0)) {
                old(self).spec_edges().push((from.0, to.0))
            } else {
                old(self).spec_edges()
            },
            final(self).spec_node_count() == old(self).spec_node_count(),
            final(self).spec_master() == old(self).spec_master(),
    {
        if from.0 >= self.node_count || to.0 >= self.node_count {
            return false;
        }
        let mut k: usize = 0;
        while k < self.edges.len()
            invariant
                self.well_formed(),
                from.0 < self.node_count,
                to.0 < self.node_count,
                k <= self.edges@.len(),
                forall|j: int| 0 <= j < k ==> self.edges@[j] != (from.0, to.0),
            decreases self.edges@.len() - k,
        {
            if self.edges[k].0 == from.0 && self.edges[k].1 == to.0 {
                assert(self.edges@[k as int] == (from.0, to.0));
                assert(self.edges@.contains((from.0, to.0)));
                return true;
            }
            k = k + 1;
        }
        assert(!self.edges@.contains((from.0, to.0)));
        self.edges.push((from.0, to.0));
        true
    }

    /// Make `id` the node whose output the graph renders. Refused (`false`)
    /// when it does not exist.
    pub fn set_master(&mut self, id: NodeId) -> (ok: bool)
        requires
            old(self).well_formed(),
        ensures
            final(self).well_formed(),
            ok == (id.0 < old(self).spec_node_count()),
            final(self).spec_master() == if ok {
                Some(id.0)
            } else {
                old(self).spec_master()
            },
            final(self).spec_node_count() == old(self).spec_node_count(),
            final(self).spec_edges() == old(self).spec_edges(),
    {
        if id.0 < self.node_count {
            self.master = Some(id.0);
            true
        } else {
            false
        }
    }

    /// The nodes feeding `node`, one per edge, in the order the edges were made.
    pub fn upstream(&self, node: NodeId) -> (u: Vec<usize>)
        ensures
            u@ == spec_upstream(self.spec_edges(), node.0),
            u@ == self.spec_edges().filter(edge_into(node.0)).map_values(edge_source()),
    {
        let mut u: Vec<usize> = Vec::new();
        let mut k: usize = 0;
        while k < self.edges.len()
            invariant
                k <= self.edges@.len(),
                u@ == spec_upstream(self.edges@.take(k as int), node.0),
            decreases self.edges@.len() - k,
        {
            assert(self.edges@.take(k + 1).drop_last() =~= self.edges@.take(k as int));
            if self.edges[k].1 == node.0 {
                u.push(self.edges[k].0);
            }
            k = k + 1;
        }
        assert(self.edges@.take(self.edges@.len() as int) =~= self.edges@);
        proof {
            lemma_upstream_lists_every_feeder(self.edges@, node.0);
        }
        u
    }

    /// Whether every edge into `v` comes from a node already placed.
    fn ready(&self, placed: &Vec<bool>, v: usize) -> (r: bool)
        requires
            self.well_formed(),
            placed@.len() == self.node_count,
        ensures
            r == forall|k: int|
                0 <= k < self.edges@.len() && #[trigger] self.edges@[k].1 == v ==> placed@[self.edges@[k].0 as int],
    {
        let mut k: usize = 0;
        while k < self.edges.len()
            invariant
                self.well_formed(),
                placed@.len() == self.node_count,
                k <= self.edges@.len(),
                forall|j: int|
                    0 <= j < k && #[trigger] self.edges@[j].1 == v ==> placed@[self.edges@[j].0 as int],
            decreases self.edges@.len() - k,
        {
            let (a, b) = self.edges[k];
            if b == v && !placed[a] {
                return false;
            }
            k = k + 1;
        }
        true
    }

    /// An order in which every node comes after all the nodes that feed it, or
    /// `None` when the edges form a cycle.
    pub fn processing_order(&self) -> (r: Option<Vec<usize>>)
        requires
            self.well_formed(),
        ensures
            match r {
                Some(o) => is_processing_order(self.spec_node_count(), self.spec_edges(), o@)
                    && !has_stuck_set(self.spec_node_count(), self.spec_edges()),
                None => has_stuck_set(self.spec_node_count(), self.spec_edges()),
            },
    {
        let n = self.node_count;
        let mut placed: Vec<bool> = Vec::new();
        let mut i: usize = 0;
        while i < n
            invariant
                i <= n,
                placed@.len() == i,
                forall|j: int| 0 <= j < i ==> !#[trigger] placed@[j],
            decreases n - i,
        {
            placed.push(false);
            i = i + 1;
        }
        let mut order: Vec<usize> = Vec::new();
        proof {
            lemma_order_inv_init(n as nat, self.edges@, placed@);
        }
        while order.len() < n
            invariant
                self.well_formed(),
                n == self.node_count,
                order_inv(n as nat, self.edges@, placed@, order@),
            decreases n - order@.len(),
        {
            proof {
                lemma_order_inv_len(n as nat, self.edges@, placed@, order@);
            }
            let before = order.len();
            let mut v: usize = 0;
            while v < n
                invariant
                    self.well_formed(),
                    n == self.node_count,
                    v <= n,
                    before <= order@.len(),
                    order_inv(n as nat, self.edges@, placed@, order@),
                    order@.len() == before ==> forall|w: usize|
                        w < v && !#[trigger] placed@[w as int] ==> exists|k: int|
                            0 <= k < self.edges@.len() && self.edges@[k].1 == w
                                && !placed@[self.edges@[k].0 as int],
                decreases n - v,
            {
                proof {
                    lemma_order_inv_len(n as nat, self.edges@, placed@, order@);
                }
                if !placed[v] && self.ready(&placed, v) {
                    proof {
                        lemma_place(n as nat, self.edges@, placed@, order@, v);
                    }
                    placed.set(v, true);
                    order.push(v);
                }
                v = v + 1;
            }
            proof {
                lemma_order_inv_len(n as nat, self.edges@, placed@, order@);
            }
            if order.len() == before {
                proof {
                    lemma_stuck(n as nat, self.edges@, placed@, order@);
                }
                return None;
            }
        }
        proof {
            lemma_order_inv_done(n as nat, self.edges@, placed@, order@);
            lemma_order_excludes_stuck_set(n as nat, self.edges@, order@);
        }
        Some(order)
    }
}

/// The state of the ordering pass: `placed` marks the nodes already listed in
/// `order`, `order` lists them once each, and every listed node comes after its
/// inputs.
#[verifier::opaque]
spec fn order_inv(n: nat, edges: Seq<(usize, usize)>, placed: Seq<bool>, order: Seq<usize>) -> bool {
    &&& placed.len() == n
    &&& order.len() == count_true(placed)
    &&& forall|k: int| #![trigger edges[k]] 0 <= k < edges.len() ==> edges[k].0 < n && edges[k].1 < n
    &&& forall|a: int, b: int| 0 <= a < b < order.len() ==> order[a] != order[b]
    &&& forall|a: int| 0 <= a < order.len() ==> #[trigger] order[a] < n
    &&& forall|w: usize| w < n ==> (#[trigger] placed[w as int] <==> order.contains(w))
    &&& forall|k: int, a: int, b: int|
        #![trigger edges[k], order[a], order[b]]
        0 <= k < edges.len() && 0 <= a < order.len() && 0 <= b < order.len() && order[a]
            == edges[k].0 && order[b] == edges[k].1 ==> edges[k].0 != edges[k].1 && a < b
    &&& forall|k: int|
        0 <= k < edges.len() && #[trigger] placed[edges[k].1 as int] ==> placed[edges[k].0 as int]
}

proof fn lemma_order_inv_init(n: nat, edges: Seq<(usize, usize)>, placed: Seq<bool>)
    requires
        placed.len() == n,
        forall|j: int| 0 <= j < n ==> !#[trigger] placed[j],
        forall|k: int| #![trigger edges[k]] 0 <= k < edges.len() ==> edges[k].0 < n && edges[k].1 < n,
    ensures
        order_inv(n, edges, placed, Seq::empty()),
{
    reveal(order_inv);
    lemma_count_true_zero(placed);
}

proof fn lemma_order_inv_len(n: nat, edges: Seq<(usize, usize)>, placed: Seq<bool>, order: Seq<usize>)
    requires
        order_inv(n, edges, placed, order),
    ensures
        placed.len() == n,
        order.len() <= n,
        forall|k: int| #![trigger edges[k]] 0 <= k < edges.len() ==> edges[k].0 < n && edges[k].1 < n,
{
    reveal(order_inv);
    lemma_count_true_bounds(placed);
}

proof fn lemma_order_inv_count(n: nat, edges: Seq<(usize, usize)>, placed: Seq<bool>, order: Seq<usize>)
    requires
        order_inv(n, edges, placed, order),
    ensures
        placed.len() == n,
        order.len() == count_true(placed),
{
    reveal(order_inv);
}

proof fn lemma_place(n: nat, edges: Seq<(usize, usize)>, placed: Seq<bool>, order: Seq<usize>, v: usize)
    requires
        order_inv(n, edges, placed, order),
        v < n,
        !placed[v as int],
        forall|k: int| 0 <= k < edges.len() && #[trigger] edges[k].1 == v ==> placed[edges[k].0 as int],
    ensures
        order_inv(n, edges, placed.update(v as int, true), order.push(v)),
{
    reveal(order_inv);
    lemma_count_true_set(placed, v as int);
    let p2 = placed.update(v as int, true);
    let o2 = order.push(v);
    assert(!order.contains(v));
    assert forall|w: usize| w < n implies (#[trigger] p2[w as int] <==> o2.contains(w)) by {
        if w == v {
            assert(o2[o2.len() - 1] == v);
        } else {
            assert(p2[w as int] == placed[w as int]);
            if order.contains(w) {
                let a = choose|a: int| 0 <= a < order.len() && order[a] == w;
                assert(o2[a] == w);
            }
            if o2.contains(w) {
                let a = choose|a: int| 0 <= a < o2.len() && o2[a] == w;
                assert(order[a] == w);
            }
        }
    }
    assert forall|a: int, b: int| 0 <= a < b < o2.len() implies o2[a] != o2[b] by {
        if b == o2.len() - 1 {
            assert(o2[a] == order[a]);
        }
    }
    assert forall|k: int, a: int, b: int|
        #![trigger edges[k], o2[a], o2[b]]
        0 <= k < edges.len() && 0 <= a < o2.len() && 0 <= b < o2.len() && o2[a] == edges[k].0
            && o2[b] == edges[k].1 implies edges[k].0 != edges[k].1 && a < b by {
        let last = o2.len() - 1;
        if a == last {
            // v would have needed itself or a later node to be placed already
            if b == last {
                assert(placed[edges[k].0 as int]);
            } else {
                assert(order[b] == edges[k].1);
                assert(placed[edges[k].1 as int]);
                assert(placed[edges[k].0 as int]);
            }
        } else if b == last {
            assert(order[a] == edges[k].0);
            assert(placed[edges[k].0 as int]);
        } else {
            assert(order[a] == o2[a] && order[b] == o2[b]);
        }
    }
    assert forall|k: int| 0 <= k < edges.len() && #[trigger] p2[edges[k].1 as int] implies p2[edges[k].0
        as int] by {
        if edges[k].1 == v {
            assert(placed[edges[k].0 as int]);
        } else {
            assert(p2[edges[k].1 as int] == placed[edges[k].1 as int]);
        }
    }
}

proof fn lemma_stuck(n: nat, edges: Seq<(usize, usize)>, placed: Seq<bool>, order: Seq<usize>)
    requires
        n <= usize::MAX,
        order_inv(n, edges, placed, order),
        order.len() < n,
        forall|w: usize|
            w < n && !#[trigger] placed[w as int] ==> exists|k: int|
                0 <= k < edges.len() && edges[k].1 == w && !placed[edges[k].0 as int],
    ensures
        has_stuck_set(n, edges),
{
    lemma_order_inv_count(n, edges, placed, order);
    lemma_count_true_bounds(placed);
    let s = Set::new(|w: usize| w < n && !placed[w as int]);
    let i0 = choose|i: int| 0 <= i < placed.len() && !#[trigger] placed[i];
    lemma_order_inv_len(n, edges, placed, order);
    assert(s.contains(i0 as usize));
    assert forall|w: usize| #[trigger] s.contains(w) implies w < n && fed_from(edges, s, w) by {
        let k = choose|k: int| 0 <= k < edges.len() && edges[k].1 == w && !placed[edges[k].0 as int];
        assert(s.contains(edges[k].0));
        reveal(fed_from);
    }
    assert(is_stuck_set(n, edges, s));
}

proof fn lemma_order_inv_done(n: nat, edges: Seq<(usize, usize)>, placed: Seq<bool>, order: Seq<usize>)
    requires
        order_inv(n, edges, placed, order),
        order.len() >= n,
    ensures
        is_processing_order(n, edges, order),
{
    reveal(order_inv);
    lemma_count_true_bounds(placed);
    assert forall|v: usize| v < n implies #[trigger] order.contains(v) by {
        if !placed[v as int] {
            lemma_count_true_unset(placed, v as int);
        }
    }
}

/// A `false` entry keeps the count below the length.
proof fn lemma_count_true_unset(s: Seq<bool>, i: int)
    requires
        0 <= i < s.len(),
        !s[i],
    ensures
        count_true(s) < s.len(),
    decreases s.len(),
{
    lemma_count_true_bounds(s.drop_last());
    if i < s.len() - 1 {
        lemma_count_true_unset(s.drop_last(), i);
    }
}

proof fn lemma_count_true_zero(s: Seq<bool>)
    requires
        forall|j: int| 0 <= j < s.len() ==> !#[trigger] s[j],
    ensures
        count_true(s) == 0,
    decreases s.len(),
{
    if s.len() > 0 {
        lemma_count_true_zero(s.drop_last());
    }
}

} // verus!
