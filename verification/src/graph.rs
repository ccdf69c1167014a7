use vstd::prelude::*;

verus! {

/// A directed occurrence of an undirected edge: from node `0` to node `1`.
#[derive(Clone, Copy, Debug, PartialEq, Eq, Structural, Hash)]
pub struct Edge(usize, usize);

#[derive(Debug, PartialEq, Eq, Structural)]
pub enum GraphError {
    NodeNotFound(usize),
    InvalidEdge(Edge, usize),
}

/// One stored node: its external id and the ids it is connected to,
/// kept strictly sorted (so the neighbour set has no duplicates).
#[derive(Clone, Debug)]
struct GNode {
    node_id: usize,
    connected_nodes: Vec<usize>,
}

/// An undirected graph over `usize` node ids.
#[derive(Clone, Debug)]
pub struct Graph {
    node_storage: Vec<GNode>,
}


/// Some pair in `edges` has `x` as one of its two endpoints.
pub open spec fn edge_list_has_endpoint(edges: Seq<(usize, usize)>, x: usize) -> bool {
    exists|k: int| 0 <= k < edges.len() && ((#[trigger] edges[k]).0 == x || edges[k].1 == x)
}

pub open spec fn strictly_sorted(s: Seq<usize>) -> bool {
    forall|p: int, q: int| 0 <= p < q < s.len() ==> s[p] < s[q]
}

impl Graph {
    /// The node ids, in storage order.
    pub closed spec fn ids(self) -> Seq<usize> {
        self.node_storage@.map_values(|n: GNode| n.node_id)
    }

    pub open spec fn spec_has_node(self, a: usize) -> bool {
        self.ids().contains(a)
    }

    spec fn nbrs_at(self, i: int) -> Seq<usize> {
        self.node_storage@[i].connected_nodes@
    }

    pub closed spec fn node_index(self, a: usize) -> int {
        choose|i: int|
            0 <= i < self.node_storage@.len() && self.node_storage@[i].node_id == a
    }

    /// The neighbour ids of node `a`, in ascending order.
    pub closed spec fn neighbours(self, a: usize) -> Seq<usize> {
        self.nbrs_at(self.node_index(a))
    }

    pub open spec fn spec_has_edge(self, a: usize, b: usize) -> bool {
        self.spec_has_node(a) && self.neighbours(a).contains(b)
    }

    spec fn uniq(self) -> bool {
        forall|i: int, j: int|
            0 <= i < j < self.node_storage@.len() ==> (#[trigger] self.node_storage@[i].node_id)
                != (#[trigger] self.node_storage@[j].node_id)
    }

    spec fn lists_sorted(self) -> bool {
        forall|i: int|
            0 <= i < self.node_storage@.len() ==> strictly_sorted(#[trigger] self.nbrs_at(i))
    }

    pub closed spec fn well_formed(self) -> bool {
        &&& self.uniq()
        &&& self.lists_sorted()
        &&& (forall|i: int, p: int|
            0 <= i < self.node_storage@.len() && 0 <= p < self.nbrs_at(i).len()
                ==> self.spec_has_node(#[trigger] self.nbrs_at(i)[p]))
        &&& (forall|a: usize, b: usize|
            #[trigger] self.spec_has_edge(a, b) ==> self.spec_has_edge(b, a))
    }

    /// A path: a non-empty node sequence whose consecutive entries share an edge.
    pub open spec fn is_path(self, p: Seq<usize>) -> bool {
        &&& p.len() >= 1
        &&& (forall|k: int| 0 <= k < p.len() ==> self.spec_has_node(#[trigger] p[k]))
        &&& (forall|k: int| 0 <= k < p.len() - 1 ==> self.spec_has_edge(#[trigger] p[k], p[k + 1]))
    }

    /// A path all of whose nodes lie in `s`.
    pub open spec fn is_path_within(self, p: Seq<usize>, s: Set<usize>) -> bool {
        self.is_path(p) && (forall|k: int| 0 <= k < p.len() ==> s.contains(#[trigger] p[k]))
    }

    pub open spec fn conn(self, a: usize, b: usize) -> bool {
        exists|p: Seq<usize>| self.is_path(p) && p.first() == a && p.last() == b
    }

    /// `a` and `b` are joined by a path staying inside `s`.
    pub open spec fn conn_within(self, s: Set<usize>, a: usize, b: usize) -> bool {
        exists|p: Seq<usize>| self.is_path_within(p, s) && p.first() == a && p.last() == b
    }

    /// Every pair of nodes is joined by a path.
    pub open spec fn spec_connected(self) -> bool {
        forall|a: usize, b: usize|
            self.spec_has_node(a) && self.spec_has_node(b) ==> self.conn(a, b)
    }

    proof fn lemma_node_index(self, a: usize, i: int)
        requires
            self.uniq(),
            0 <= i < self.node_storage@.len(),
            self.node_storage@[i].node_id == a,
        ensures
            self.node_index(a) == i,
            self.spec_has_node(a),
            self.neighbours(a) == self.nbrs_at(i),
    {
        assert(self.ids()[i] == a);
        let j = self.node_index(a);
        if j != i {
            assert(self.node_storage@[j].node_id == a);
        }
    }

    proof fn lemma_conn_refl(self, a: usize)
        requires
            self.spec_has_node(a),
        ensures
            self.conn(a, a),
            self.conn_within(set![a], a, a),
    {
        let p = seq![a];
        assert(self.is_path_within(p, set![a]));
        assert(p.first() == a && p.last() == a);
    }

    proof fn lemma_conn_within_mono(self, s: Set<usize>, t: Set<usize>, a: usize, b: usize)
        requires
            self.conn_within(s, a, b),
            s.subset_of(t),
        ensures
            self.conn_within(t, a, b),
    {
        let p = choose|p: Seq<usize>|
            self.is_path_within(p, s) && p.first() == a && p.last() == b;
        assert(self.is_path_within(p, t));
    }

    proof fn lemma_conn_within_step(self, s: Set<usize>, a: usize, u: usize, v: usize)
        requires
            self.conn_within(s, a, u),
            self.spec_has_edge(u, v),
            self.spec_has_node(v),
            s.contains(v),
        ensures
            self.conn_within(s, a, v),
    {
        let p = choose|p: Seq<usize>|
            self.is_path_within(p, s) && p.first() == a && p.last() == u;
        let q = p.push(v);
        assert forall|k: int| 0 <= k < q.len() - 1 implies self.spec_has_edge(
            #[trigger] q[k],
            q[k + 1],
        ) by {
            if k < p.len() - 1 {
                assert(q[k] == p[k] && q[k + 1] == p[k + 1]);
            } else {
                assert(q[k] == p.last() && q[k + 1] == v);
            }
        }
        assert(self.is_path_within(q, s));
        assert(q.first() == a && q.last() == v);
    }

    proof fn lemma_conn_within_implies_conn(self, s: Set<usize>, a: usize, b: usize)
        requires
            self.conn_within(s, a, b),
        ensures
            self.conn(a, b),
    {
        let p = choose|p: Seq<usize>|
            self.is_path_within(p, s) && p.first() == a && p.last() == b;
        assert(self.is_path(p) && p.first() == a && p.last() == b);
    }

    proof fn lemma_conn_sym(self, a: usize, b: usize)
        requires
            self.well_formed(),
            self.conn(a, b),
        ensures
            self.conn(b, a),
    {
        let p = choose|p: Seq<usize>| self.is_path(p) && p.first() == a && p.last() == b;
        let q = p.reverse();
        assert forall|k: int| 0 <= k < q.len() - 1 implies self.spec_has_edge(
            #[trigger] q[k],
            q[k + 1],
        ) by {
            let n = p.len();
            assert(q[k] == p[n - 1 - k] && q[k + 1] == p[n - 1 - (k + 1)]);
            assert(self.spec_has_edge(p[n - 2 - k], p[n - 1 - k]));
        }
        assert(self.is_path(q));
        assert(q.first() == b && q.last() == a);
    }

    proof fn lemma_conn_trans(self, a: usize, b: usize, c: usize)
        requires
            self.conn(a, b),
            self.conn(b, c),
        ensures
            self.conn(a, c),
    {
        let p = choose|p: Seq<usize>| self.is_path(p) && p.first() == a && p.last() == b;
        let q = choose|q: Seq<usize>| self.is_path(q) && q.first() == b && q.last() == c;
        let r = p + q.skip(1);
        assert(r.first() == a);
        assert(r.last() == if q.len() == 1 { p.last() } else { q.last() });
        assert forall|k: int| 0 <= k < r.len() ==> self.spec_has_node(#[trigger] r[k]) by {}
        assert forall|k: int| 0 <= k < r.len() - 1 implies self.spec_has_edge(
            #[trigger] r[k],
            r[k + 1],
        ) by {
            if k < p.len() - 1 {
                assert(r[k] == p[k] && r[k + 1] == p[k + 1]);
            } else if k == p.len() - 1 {
                if q.len() >= 2 {
                    assert(r[k] == p.last() && r[k + 1] == q[1]);
                    assert(self.spec_has_edge(q[0], q[1]));
                }
            } else {
                assert(r[k] == q[k - p.len() + 1] && r[k + 1] == q[k - p.len() + 2]);
            }
        }
        assert(self.is_path(r));
    }

    /// A set that contains `a` and is closed under edges contains everything
    /// reachable from `a`.
    proof fn lemma_closed_covers_reachable(self, s: Set<usize>, a: usize, b: usize)
        requires
            self.well_formed(),
            s.contains(a),
            forall|u: usize, v: usize|
                s.contains(u) && #[trigger] self.spec_has_edge(u, v) ==> s.contains(v),
            self.conn(a, b),
        ensures
            s.contains(b),
    {
        let p = choose|p: Seq<usize>| self.is_path(p) && p.first() == a && p.last() == b;
        self.lemma_closed_covers_path(s, p);
    }

    proof fn lemma_closed_covers_path(self, s: Set<usize>, p: Seq<usize>)
        requires
            self.well_formed(),
            self.is_path(p),
            s.contains(p.first()),
            forall|u: usize, v: usize|
                s.contains(u) && #[trigger] self.spec_has_edge(u, v) ==> s.contains(v),
        ensures
            s.contains(p.last()),
        decreases p.len(),
    {
        if p.len() > 1 {
            let q = p.skip(1);
            assert(self.spec_has_edge(p[0], p[1]));
            assert(s.contains(p[1]));
            assert forall|k: int| 0 <= k < q.len() ==> self.spec_has_node(#[trigger] q[k]) by {}
            assert forall|k: int| 0 <= k < q.len() - 1 implies self.spec_has_edge(
                #[trigger] q[k],
                q[k + 1],
            ) by {
                assert(q[k] == p[k + 1] && q[k + 1] == p[k + 2]);
                assert(self.spec_has_edge(p[k + 1], p[k + 2]));
            }
            assert(self.is_path(q));
            assert(q.first() == p[1]);
            self.lemma_closed_covers_path(s, q);
            assert(q.last() == p.last());
        }
    }
}

/// Insert `b` into the strictly sorted vector `v`, keeping it sorted;
/// no effect when `b` is already present.
/// `post` holds exactly the values of `pre` together with `b`.
pub open spec fn inserted_value(pre: Seq<usize>, post: Seq<usize>, b: usize) -> bool {
    forall|x: usize| post.contains(x) == (pre.contains(x) || x == b)
}

fn insert_sorted(v: &mut Vec<usize>, b: usize)
    requires
        strictly_sorted(old(v)@),
    ensures
        strictly_sorted(final(v)@),
        inserted_value(old(v)@, final(v)@, b),
{
    let mut j: usize = 0;
    while j < v.len() && v[j] < b
        invariant
            j <= v@.len(),
            strictly_sorted(v@),
            v == old(v),
            forall|k: int| 0 <= k < j ==> v@[k] < b,
        decreases v@.len() - j,
    {
        j += 1;
    }
    if j < v.len() && v[j] == b {
        proof {
            assert(v@ == old(v)@);
            assert(v@.contains(b));
            assert forall|x: usize| v@.contains(x) == (old(v)@.contains(x) || x == b) by {}
            assert(inserted_value(old(v)@, v@, b));
        }
        return ;
    }
    v.insert(j, b);
    proof {
        let s = old(v)@;
        assert forall|p: int, q: int| 0 <= p < q < v@.len() implies v@[p] < v@[q] by {
            if p < j && q == j {
                assert(v@[p] == s[p]);
            } else if p == j && q > j {
                assert(v@[q] == s[q - 1] && s[q - 1] >= b);
                assert(s[q - 1] != b) by {
                    if s[q - 1] == b {
                        assert(s.contains(b));
                        let w = choose|w: int| 0 <= w < s.len() && s[w] == b;
                        assert(w >= j);
                    }
                }
            } else if p < j && q < j {
                assert(v@[p] == s[p] && v@[q] == s[q]);
            } else if p > j && q > j {
                assert(v@[p] == s[p - 1] && v@[q] == s[q - 1]);
            }
        }
        assert forall|x: usize| v@.contains(x) == (s.contains(x) || x == b) by {
            if v@.contains(x) {
                let w = choose|w: int| 0 <= w < v@.len() && v@[w] == x;
                if w < j {
                    assert(s[w] == x);
                } else if w > j {
                    assert(s[w - 1] == x);
                }
            }
            if s.contains(x) {
                let w = choose|w: int| 0 <= w < s.len() && s[w] == x;
                if w < j {
                    assert(v@[w] == x);
                } else {
                    assert(v@[w + 1] == x);
                }
            }
            if x == b {
                assert(v@[j as int] == b);
            }
        }
        assert(inserted_value(s, v@, b));
    }
}

impl Graph {
    spec fn degree_sum_up_to(self, n: int) -> int
        decreases n,
    {
        if n <= 0 {
            0
        } else {
            self.degree_sum_up_to(n - 1) + self.nbrs_at(n - 1).len()
        }
    }

    pub closed spec fn spec_degree_sum(self) -> int {
        self.degree_sum_up_to(self.node_storage@.len() as int)
    }

    /// The number of undirected edges.
    pub open spec fn spec_num_edges(self) -> int {
        self.spec_degree_sum() / 2
    }

    fn find_node_index(&self, node_id: usize) -> (r: Option<usize>)
        ensures
            match r {
                Some(i) => i < self.node_storage@.len()
                    && self.node_storage@[i as int].node_id == node_id,
                None => !self.spec_has_node(node_id),
            },
    {
        let mut i: usize = 0;
        while i < self.node_storage.len()
            invariant
                i <= self.node_storage@.len(),
                forall|k: int| 0 <= k < i ==> self.node_storage@[k].node_id != node_id,
            decreases self.node_storage@.len() - i,
        {
            if self.node_storage[i].node_id == node_id {
                return Some(i);
            }
            i += 1;
        }
        proof {
            if self.spec_has_node(node_id) {
                let k = choose|k: int|
                    0 <= k < self.ids().len() && self.ids()[k] == node_id;
                assert(self.node_storage@[k].node_id == node_id);
            }
        }
        None
    }

    /// Constructs an undirected graph from a list of edges.
    ///
    /// The graph contains a node for each id included in some edge, and for
    /// each pair (a, b) in the list it contains the edge both ways round.
    pub fn new_from_edges(edges: Vec<(usize, usize)>) -> (r: Graph)
        ensures
            r.well_formed(),
            forall|x: usize|
                r.spec_has_node(x) == edge_list_has_endpoint(edges@, x),
            forall|a: usize, b: usize|
                r.spec_has_edge(a, b) == (edges@.contains((a, b)) || edges@.contains((b, a))),
    {
        let mut graph = Graph { node_storage: Vec::new() };
        proof {
            assert(graph.ids() =~= Seq::<usize>::empty());
        }
        graph.add_edges(edges);
        graph
    }

    /// Adds edges to the undirected graph, creating nodes for new ids.
    pub fn add_edges(&mut self, edges: Vec<(usize, usize)>)
        requires
            old(self).well_formed(),
        ensures
            final(self).well_formed(),
            forall|x: usize|
                final(self).spec_has_node(x) == (old(self).spec_has_node(x)
                    || edge_list_has_endpoint(edges@, x)),
            forall|a: usize, b: usize|
                final(self).spec_has_edge(a, b) == (old(self).spec_has_edge(a, b)
                    || edges@.contains((a, b)) || edges@.contains((b, a))),
    {
        let n = edges.len();
        let mut k: usize = 0;
        while k < n
            invariant
                n == edges@.len(),
                k <= n,
                self.well_formed(),
                forall|x: usize|
                    self.spec_has_node(x) == (old(self).spec_has_node(x)
                        || edge_list_has_endpoint(edges@.take(k as int), x)),
                forall|a: usize, b: usize|
                    self.spec_has_edge(a, b) == (old(self).spec_has_edge(a, b)
                        || edges@.take(k as int).contains((a, b))
                        || edges@.take(k as int).contains((b, a))),
            decreases n - k,
        {
            let (first, second) = (edges[k].0, edges[k].1);
            let ghost pre = *self;
            self.add_node(first);
            self.add_node(second);
            self.add_edge_pair(first, second);
            k += 1;
            proof {
                let tk = edges@.take(k as int);
                let tk1 = edges@.take(k - 1);
                assert(tk.drop_last() =~= tk1);
                assert(tk.last() == edges@[k - 1]);
                assert forall|x: usize|
                    self.spec_has_node(x) == (old(self).spec_has_node(x)
                        || edge_list_has_endpoint(tk, x)) by {
                    if edge_list_has_endpoint(tk, x) {
                        let w = choose|w: int|
                            0 <= w < tk.len() && ((#[trigger] tk[w]).0 == x || tk[w].1 == x);
                        if w < tk.len() - 1 {
                            assert(tk1[w] == tk[w]);
                            assert(edge_list_has_endpoint(tk1, x));
                        }
                    }
                    if edge_list_has_endpoint(tk1, x) {
                        let w = choose|w: int|
                            0 <= w < tk1.len() && ((#[trigger] tk1[w]).0 == x || tk1[w].1 == x);
                        assert(tk[w] == tk1[w]);
                        assert(edge_list_has_endpoint(tk, x));
                    }
                    if x == first || x == second {
                        assert(tk[k - 1] == (first, second));
                        assert(edge_list_has_endpoint(tk, x));
                    }
                }
                assert forall|a: usize, b: usize|
                    self.spec_has_edge(a, b) == (old(self).spec_has_edge(a, b)
                        || tk.contains((a, b)) || tk.contains((b, a))) by {
                    if tk.contains((a, b)) {
                        let w = choose|w: int| 0 <= w < tk.len() && tk[w] == (a, b);
                        if w < tk.len() - 1 {
                            assert(tk1[w] == (a, b));
                        } else {
                            assert((a, b) == (first, second));
                        }
                    }
                    if tk.contains((b, a)) {
                        let w = choose|w: int| 0 <= w < tk.len() && tk[w] == (b, a);
                        if w < tk.len() - 1 {
                            assert(tk1[w] == (b, a));
                        } else {
                            assert((b, a) == (first, second));
                        }
                    }
                    if tk1.contains((a, b)) {
                        let w = choose|w: int| 0 <= w < tk1.len() && tk1[w] == (a, b);
                        assert(tk[w] == (a, b));
                    }
                    if tk1.contains((b, a)) {
                        let w = choose|w: int| 0 <= w < tk1.len() && tk1[w] == (b, a);
                        assert(tk[w] == (b, a));
                    }
                    if (a, b) == (first, second) || (b, a) == (first, second) {
                        assert(tk[k - 1] == (first, second));
                    }
                }
            }
        }
        proof {
            assert(edges@.take(n as int) =~= edges@);
        }
    }

    /// Adds a disconnected node to the graph; returns true when the node was
    /// already present.
    pub fn add_node(&mut self, node_id: usize) -> (r: bool)
        requires
            old(self).well_formed(),
        ensures
            final(self).well_formed(),
            r == old(self).spec_has_node(node_id),
            final(self).spec_has_node(node_id),
            forall|x: usize|
                final(self).spec_has_node(x) == (old(self).spec_has_node(x) || x == node_id),
            forall|a: usize, b: usize|
                final(self).spec_has_edge(a, b) == old(self).spec_has_edge(a, b),
            r ==> *final(self) == *old(self),
            !r ==> final(self).ids().len() == old(self).ids().len() + 1,
    {
        match self.find_node_index(node_id) {
            Some(i) => {
                proof {
                    assert(old(self).ids()[i as int] == node_id);
                }
                true
            },
            None => {
                let node = GNode { node_id, connected_nodes: Vec::new() };
                self.node_storage.push(node);
                proof {
                    let n = old(self).node_storage@.len() as int;
                    assert(self.ids() =~= old(self).ids().push(node_id));
                    assert(self.ids()[n] == node_id);
                    assert forall|x: usize|
                        self.spec_has_node(x) == (old(self).spec_has_node(x) || x == node_id) by {
                        if self.spec_has_node(x) {
                            let w = choose|w: int|
                                0 <= w < self.ids().len() && self.ids()[w] == x;
                            if w < n {
                                assert(old(self).ids()[w] == x);
                            }
                        }
                        if old(self).spec_has_node(x) {
                            let w = choose|w: int|
                                0 <= w < old(self).ids().len() && old(self).ids()[w] == x;
                            assert(self.ids()[w] == x);
                        }
                    }
                    self.lemma_preserved_edges_after_extend(*old(self), node_id);
                }
                false
            },
        }
    }

    proof fn lemma_preserved_edges_after_extend(self, pre: Graph, node_id: usize)
        requires
            pre.well_formed(),
            !pre.spec_has_node(node_id),
            self.node_storage@.len() == pre.node_storage@.len() + 1,
            forall|i: int|
                0 <= i < pre.node_storage@.len() ==> self.node_storage@[i]
                    == pre.node_storage@[i],
            self.node_storage@.last().node_id == node_id,
            self.node_storage@.last().connected_nodes@.len() == 0,
            forall|x: usize| self.spec_has_node(x) == (pre.spec_has_node(x) || x == node_id),
        ensures
            self.well_formed(),
            forall|a: usize, b: usize|
                self.spec_has_edge(a, b) == pre.spec_has_edge(a, b),
    {
        let n = pre.node_storage@.len() as int;
        assert forall|i: int, j: int|
            0 <= i < j < self.node_storage@.len() implies (
            #[trigger] self.node_storage@[i].node_id) != (
            #[trigger] self.node_storage@[j].node_id) by {
            if j == n {
                assert(self.node_storage@[i] == pre.node_storage@[i]);
                if self.node_storage@[i].node_id == node_id {
                    assert(pre.ids()[i] == node_id);
                }
            }
        }
        assert forall|a: usize| pre.spec_has_node(a) implies #[trigger] self.neighbours(a)
            == pre.neighbours(a) by {
            let i = pre.node_index(a);
            assert(pre.node_storage@[i].node_id == a);
            assert(self.node_storage@[i] == pre.node_storage@[i]);
            self.lemma_node_index(a, i);
        }
        assert(self.nbrs_at(n).len() == 0);
        assert forall|a: usize, b: usize|
            self.spec_has_edge(a, b) == pre.spec_has_edge(a, b) by {
            if a == node_id {
                self.lemma_node_index(a, n);
                assert(!self.neighbours(a).contains(b));
            } else if pre.spec_has_node(a) {
                assert(self.neighbours(a) == pre.neighbours(a));
            }
        }
        assert forall|i: int|
            0 <= i < self.node_storage@.len() implies strictly_sorted(
            #[trigger] self.nbrs_at(i)) by {
            if i < n {
                assert(self.node_storage@[i] == pre.node_storage@[i]);
                assert(pre.nbrs_at(i) == self.nbrs_at(i));
            }
        }
        assert forall|i: int, p: int|
            0 <= i < self.node_storage@.len() && 0 <= p < self.nbrs_at(i).len()
                implies self.spec_has_node(#[trigger] self.nbrs_at(i)[p]) by {
            if i < n {
                assert(self.node_storage@[i] == pre.node_storage@[i]);
                assert(pre.nbrs_at(i) == self.nbrs_at(i));
                assert(pre.spec_has_node(pre.nbrs_at(i)[p]));
            }
        }
    }

    /// Insert `to` into the neighbour list of node `from`.
    fn add_half_edge(&mut self, from: usize, to: usize)
        requires
            old(self).uniq(),
            old(self).lists_sorted(),
            old(self).spec_has_node(from),
        ensures
            final(self).uniq(),
            final(self).lists_sorted(),
            final(self).ids() == old(self).ids(),
            final(self).node_storage@.len() == old(self).node_storage@.len(),
            final(self).node_index(from) == old(self).node_index(from),
            forall|i: int|
                0 <= i < final(self).node_storage@.len() && i != old(self).node_index(from)
                    ==> final(self).node_storage@[i] == old(self).node_storage@[i],
            final(self).node_storage@[final(self).node_index(from)].node_id == from,
            forall|x: usize|
                final(self).neighbours(from).contains(x) == (old(self).neighbours(from).contains(x)
                    || x == to),
    {
        let i = self.find_node_index(from).unwrap();
        proof {
            old(self).lemma_node_index(from, i as int);
        }
        let mut gn = self.node_storage.remove(i);
        insert_sorted(&mut gn.connected_nodes, to);
        self.node_storage.insert(i, gn);
        proof {
            let pre = old(self).node_storage@;
            assert(self.node_storage@.len() == pre.len());
            assert forall|k: int|
                0 <= k < self.node_storage@.len() && k != i implies self.node_storage@[k]
                == pre[k] by {
                if k < i {
                    assert(self.node_storage@[k] == pre[k]);
                } else {
                    assert(self.node_storage@[k] == pre[k]);
                }
            }
            assert(self.node_storage@[i as int].node_id == from);
            assert(self.ids() =~= old(self).ids());
            assert forall|k: int|
                0 <= k < self.node_storage@.len() implies strictly_sorted(
                #[trigger] self.nbrs_at(k)) by {
                if k != i {
                    assert(self.node_storage@[k] == pre[k]);
                    assert(old(self).nbrs_at(k) == self.nbrs_at(k));
                }
            }
            self.lemma_node_index(from, i as int);
            old(self).lemma_node_index(from, i as int);
            assert(old(self).neighbours(from) == old(self).nbrs_at(i as int));
            assert(self.neighbours(from) == self.nbrs_at(i as int));
        }
    }

    /// Record the undirected edge between `first` and `second`.
    fn add_edge_pair(&mut self, first: usize, second: usize)
        requires
            old(self).well_formed(),
            old(self).spec_has_node(first),
            old(self).spec_has_node(second),
        ensures
            final(self).well_formed(),
            forall|x: usize| final(self).spec_has_node(x) == old(self).spec_has_node(x),
            forall|a: usize, b: usize|
                final(self).spec_has_edge(a, b) == (old(self).spec_has_edge(a, b)
                    || (a == first && b == second) || (a == second && b == first)),
    {
        let ghost g0 = *self;
        self.add_half_edge(first, second);
        let ghost g1 = *self;
        self.add_half_edge(second, first);
        proof {
            let i1 = g0.node_index(first);
            let i2 = g1.node_index(second);
            g0.lemma_node_index(second, g0.node_index(second));
            assert(g1.node_index(second) == g0.node_index(second)) by {
                assert(g1.node_storage@[g0.node_index(second)].node_id == second) by {
                    if g0.node_index(second) != i1 {
                    } else {
                    }
                }
                g1.lemma_node_index(second, g0.node_index(second));
            }
            // Neighbour lists per node, after both insertions.
            assert forall|a: usize| #[trigger] self.spec_has_node(a) implies {
                &&& (a != first && a != second ==> self.neighbours(a) == g0.neighbours(a))
            } by {
                if a != first && a != second {
                    let ia = g0.node_index(a);
                    g0.lemma_node_index(a, ia);
                    assert(g0.node_storage@[ia].node_id == a);
                    assert(ia != i1 && ia != i2);
                    assert(self.node_storage@[ia] == g0.node_storage@[ia]);
                    self.lemma_node_index(a, ia);
                    assert(self.neighbours(a) == g0.neighbours(a));
                }
            }
            assert forall|x: usize| #[trigger] self.neighbours(second).contains(x)
                == (g0.neighbours(second).contains(x) || x == first) by {
                assert(g1.neighbours(second) == g0.neighbours(second) || second == first) by {
                    if second != first {
                        let is2 = g0.node_index(second);
                        assert(is2 != i1);
                        assert(g1.node_storage@[is2] == g0.node_storage@[is2]);
                        g0.lemma_node_index(second, is2);
                        g1.lemma_node_index(second, is2);
                    }
                }
                if second == first {
                    assert(g1.neighbours(second).contains(x)
                        == (g0.neighbours(second).contains(x) || x == second));
                }
            }
            assert forall|x: usize| #[trigger] self.neighbours(first).contains(x)
                == (g0.neighbours(first).contains(x) || x == second || (first == second && x
                == first)) by {
                if first != second {
                    assert(self.node_index(first) == g1.node_index(first));
                    let if1 = g0.node_index(first);
                    g0.lemma_node_index(first, if1);
                    g1.lemma_node_index(first, if1);
                    assert(if1 != i2);
                    assert(self.node_storage@[if1] == g1.node_storage@[if1]);
                    self.lemma_node_index(first, if1);
                    assert(self.neighbours(first) == g1.neighbours(first));
                }
            }
            // Well-formedness of the result.
            assert forall|i: int, p: int|
                0 <= i < self.node_storage@.len() && 0 <= p < self.nbrs_at(i).len()
                    implies self.spec_has_node(#[trigger] self.nbrs_at(i)[p]) by {
                let a = self.node_storage@[i].node_id;
                self.lemma_node_index(a, i);
                assert(self.neighbours(a) == self.nbrs_at(i));
                let x = self.nbrs_at(i)[p];
                assert(self.neighbours(a).contains(x));
                if a != first && a != second {
                    assert(g0.neighbours(a).contains(x));
                    assert(g0.spec_has_edge(a, x));
                } else if a == first {
                    assert(g0.neighbours(first).contains(x) || x == second || x == first);
                    if g0.neighbours(first).contains(x) {
                        assert(g0.spec_has_edge(first, x));
                    }
                } else {
                    assert(g0.neighbours(second).contains(x) || x == first);
                    if g0.neighbours(second).contains(x) {
                        assert(g0.spec_has_edge(second, x));
                    }
                }
            }
            assert forall|a: usize, b: usize| #[trigger] self.spec_has_edge(a, b)
                implies self.spec_has_edge(b, a) by {
                self.lemma_edge_described(g0, first, second, a, b);
                self.lemma_edge_described(g0, first, second, b, a);
            }
            assert forall|a: usize, b: usize|
                self.spec_has_edge(a, b) == (g0.spec_has_edge(a, b) || (a == first && b
                == second) || (a == second && b == first)) by {
                self.lemma_edge_described(g0, first, second, a, b);
            }
        }
    }

    /// After inserting the pair, an edge holds exactly when it held before or
    /// is the inserted pair (in either direction).
    proof fn lemma_edge_described(self, g0: Graph, first: usize, second: usize, a: usize, b: usize)
        requires
            g0.well_formed(),
            g0.spec_has_node(first),
            g0.spec_has_node(second),
            self.ids() == g0.ids(),
            forall|x: usize|
                self.spec_has_node(x) ==> (x != first && x != second ==> self.neighbours(x)
                    == g0.neighbours(x)),
            forall|x: usize|
                self.neighbours(first).contains(x) == (g0.neighbours(first).contains(x) || x
                    == second || (first == second && x == first)),
            forall|x: usize|
                self.neighbours(second).contains(x) == (g0.neighbours(second).contains(x) || x
                    == first),
        ensures
            self.spec_has_edge(a, b) == (g0.spec_has_edge(a, b) || (a == first && b == second)
                || (a == second && b == first)),
    {
        if a == first {
            assert(self.spec_has_node(a) == g0.spec_has_node(a));
        } else if a == second {
            assert(self.spec_has_node(a) == g0.spec_has_node(a));
        } else {
            assert(self.spec_has_node(a) == g0.spec_has_node(a));
            if self.spec_has_node(a) {
                assert(self.neighbours(a) == g0.neighbours(a));
            }
        }
        if g0.spec_has_edge(a, b) && a != first && a != second {
            assert(self.neighbours(a).contains(b));
        }
    }
}

/// Does `v` contain `x`?
fn contains_usize(v: &Vec<usize>, x: usize) -> (r: bool)
    ensures
        r == v@.contains(x),
{
    let mut k: usize = 0;
    while k < v.len()
        invariant
            k <= v@.len(),
            forall|q: int| 0 <= q < k ==> v@[q] != x,
        decreases v@.len() - k,
    {
        if v[k] == x {
            return true;
        }
        k += 1;
    }
    false
}

/// A sequence of distinct elements drawn from another sequence of distinct
/// elements is no longer than it.
proof fn lemma_unique_len_le(a: Seq<usize>, b: Seq<usize>)
    requires
        a.no_duplicates(),
        b.no_duplicates(),
        forall|x: usize| a.contains(x) ==> b.contains(x),
    ensures
        a.len() <= b.len(),
{
    broadcast use vstd::seq_lib::seq_to_set_is_finite;

    a.unique_seq_to_set();
    b.unique_seq_to_set();
    assert(a.to_set().subset_of(b.to_set()));
    vstd::set_lib::lemma_len_subset(a.to_set(), b.to_set());
}

impl Graph {
    /// Returns the number of nodes in the graph.
    pub fn count_nodes(&self) -> (r: usize)
        ensures
            r == self.ids().len(),
    {
        self.node_storage.len()
    }

    proof fn lemma_degree_sum_mono(self, i: int, n: int)
        requires
            0 <= i <= n,
        ensures
            self.degree_sum_up_to(i) <= self.degree_sum_up_to(n),
            self.degree_sum_up_to(i) >= 0,
        decreases n - i,
    {
        if i < n {
            self.lemma_degree_sum_mono(i, n - 1);
        }
        if i > 0 {
            self.lemma_degree_sum_nonneg(i);
        }
    }

    proof fn lemma_degree_sum_nonneg(self, i: int)
        ensures
            self.degree_sum_up_to(i) >= 0,
        decreases i,
    {
        if i > 0 {
            self.lemma_degree_sum_nonneg(i - 1);
        }
    }

    /// Returns the number of undirected edges in the graph.
    pub fn count_edges(&self) -> (r: usize)
        requires
            self.spec_degree_sum() <= usize::MAX,
        ensures
            r == self.spec_num_edges(),
    {
        let mut edge_count: usize = 0;
        let mut i: usize = 0;
        let n = self.node_storage.len();
        while i < n
            invariant
                n == self.node_storage@.len(),
                i <= n,
                self.spec_degree_sum() <= usize::MAX,
                edge_count == self.degree_sum_up_to(i as int),
            decreases n - i,
        {
            proof {
                self.lemma_degree_sum_mono(i + 1, n as int);
            }
            edge_count = edge_count + self.node_storage[i].connected_nodes.len();
            i += 1;
        }
        edge_count / 2
    }

    /// Counts independent cycles, on the assumption that the graph is
    /// connected: edges − nodes + 1.
    pub fn count_cycles(&self) -> (r: usize)
        requires
            self.spec_degree_sum() <= usize::MAX,
            self.spec_num_edges() + 1 >= self.ids().len(),
        ensures
            r == self.spec_num_edges() + 1 - self.ids().len(),
    {
        proof {
            self.lemma_degree_sum_mono(0, self.node_storage@.len() as int);
        }
        self.count_edges() + 1 - self.count_nodes()
    }

    /// Every node reachable from `start`, starting with `start` itself.
    /// The result is closed under edges, and every listed node is joined
    /// to `start` by a path inside the result.
    fn reach_from(&self, start: usize) -> (visited: Vec<usize>)
        requires
            self.well_formed(),
            self.spec_has_node(start),
        ensures
            visited@.no_duplicates(),
            visited@.len() >= 1 && visited@[0] == start,
            forall|k: int| 0 <= k < visited@.len() ==> self.spec_has_node(#[trigger] visited@[k]),
            forall|x: usize|
                visited@.contains(x) ==> self.conn_within(visited@.to_set(), start, x),
            forall|u: usize, v: usize|
                visited@.contains(u) && #[trigger] self.spec_has_edge(u, v)
                    ==> visited@.contains(v),
    {
        let mut visited: Vec<usize> = Vec::new();
        visited.push(start);
        proof {
            assert(visited@[0] == start);
            assert(visited@.contains(start));
            self.lemma_conn_refl(start);
            assert(set![start].subset_of(visited@.to_set())) by {
                assert(visited@.to_set().contains(start));
            }
            self.lemma_conn_within_mono(set![start], visited@.to_set(), start, start);
            assert forall|x: usize| visited@.contains(x) implies self.conn_within(
                visited@.to_set(),
                start,
                x,
            ) by {
                let w = choose|w: int| 0 <= w < visited@.len() && visited@[w] == x;
                assert(x == start);
            }
            assert(self.ids().no_duplicates());
            lemma_unique_len_le(visited@, self.ids());
        }
        let mut i: usize = 0;
        while i < visited.len()
            invariant
                self.well_formed(),
                i <= visited@.len(),
                visited@.len() >= 1 && visited@[0] == start,
                visited@.no_duplicates(),
                visited@.len() <= self.ids().len(),
                forall|k: int|
                    0 <= k < visited@.len() ==> self.spec_has_node(#[trigger] visited@[k]),
                forall|x: usize|
                    visited@.contains(x) ==> self.conn_within(visited@.to_set(), start, x),
                forall|u: usize, v: usize|
                    visited@.take(i as int).contains(u) && #[trigger] self.spec_has_edge(u, v)
                        ==> visited@.contains(v),
            decreases self.ids().len() - visited@.len(), visited@.len() - i,
        {
            let u = visited[i];
            let ui = self.find_node_index(u).unwrap();
            proof {
                self.lemma_node_index(u, ui as int);
            }
            let nbrs_len = self.node_storage[ui].connected_nodes.len();
            let ghost len0 = visited@.len();
            let mut p: usize = 0;
            while p < nbrs_len
                invariant
                    self.well_formed(),
                    visited@.len() >= len0,
                    i < visited@.len(),
                    visited@[i as int] == u,
                    ui < self.node_storage@.len(),
                    self.node_storage@[ui as int].node_id == u,
                    self.node_index(u) == ui as int,
                    nbrs_len == self.neighbours(u).len(),
                    p <= nbrs_len,
                    visited@.len() >= 1 && visited@[0] == start,
                    visited@.no_duplicates(),
                    visited@.len() <= self.ids().len(),
                    forall|k: int|
                        0 <= k < visited@.len() ==> self.spec_has_node(#[trigger] visited@[k]),
                    forall|x: usize|
                        visited@.contains(x) ==> self.conn_within(visited@.to_set(), start, x),
                    forall|u2: usize, v: usize|
                        visited@.take(i as int).contains(u2) && #[trigger] self.spec_has_edge(
                            u2,
                            v,
                        ) ==> visited@.contains(v),
                    forall|q: int|
                        0 <= q < p ==> visited@.contains(#[trigger] self.neighbours(u)[q]),
                decreases self.ids().len() - visited@.len(), nbrs_len - p,
            {
                let v = self.node_storage[ui].connected_nodes[p];
                proof {
                    assert(self.neighbours(u)[p as int] == v);
                    assert(self.neighbours(u).contains(v));
                    assert(self.spec_has_edge(u, v));
                    assert(self.spec_has_edge(v, u));
                    assert(self.spec_has_node(v));
                }
                if !contains_usize(&visited, v) {
                    let ghost pre = visited@;
                    visited.push(v);
                    proof {
                        assert(visited@.drop_last() =~= pre);
                        assert forall|x: usize| pre.contains(x) implies visited@.contains(
                            x,
                        ) by {
                            let w = choose|w: int| 0 <= w < pre.len() && pre[w] == x;
                            assert(visited@[w] == x);
                        }
                        assert(pre.to_set().subset_of(visited@.to_set()));
                        assert(visited@.contains(v)) by {
                            assert(visited@.last() == v);
                        }
                        assert(visited@.take(i as int) =~= pre.take(i as int));
                        assert forall|x: usize| visited@.contains(x) implies self.conn_within(
                            visited@.to_set(),
                            start,
                            x,
                        ) by {
                            if pre.contains(x) {
                                self.lemma_conn_within_mono(
                                    pre.to_set(),
                                    visited@.to_set(),
                                    start,
                                    x,
                                );
                            } else {
                                assert(x == v) by {
                                    let w = choose|w: int|
                                        0 <= w < visited@.len() && visited@[w] == x;
                                    if w < pre.len() {
                                        assert(pre[w] == x);
                                    }
                                }
                                assert(pre.contains(u)) by {
                                    assert(pre[i as int] == u);
                                }
                                self.lemma_conn_within_mono(
                                    pre.to_set(),
                                    visited@.to_set(),
                                    start,
                                    u,
                                );
                                self.lemma_conn_within_step(
                                    visited@.to_set(),
                                    start,
                                    u,
                                    v,
                                );
                            }
                        }
                        assert forall|k: int|
                            0 <= k < visited@.len() implies self.spec_has_node(
                            #[trigger] visited@[k]) by {
                            if k < pre.len() {
                                assert(visited@[k] == pre[k]);
                            }
                        }
                        lemma_unique_len_le(visited@, self.ids());
                    }
                }
                p += 1;
            }
            i += 1;
            proof {
                assert forall|u2: usize, v: usize|
                    visited@.take(i as int).contains(u2) && #[trigger] self.spec_has_edge(u2, v)
                        implies visited@.contains(v) by {
                    let t = visited@.take(i as int);
                    let w = choose|w: int| 0 <= w < t.len() && t[w] == u2;
                    if w < i - 1 {
                        assert(visited@.take(i - 1).contains(u2)) by {
                            assert(visited@.take(i - 1)[w] == u2);
                        }
                    } else {
                        assert(u2 == u);
                        assert(self.neighbours(u).contains(v));
                        let q = choose|q: int|
                            0 <= q < self.neighbours(u).len() && self.neighbours(u)[q] == v;
                        assert(visited@.contains(self.neighbours(u)[q]));
                    }
                }
            }
        }
        proof {
            assert(visited@.take(visited@.len() as int) =~= visited@);
        }
        visited
    }

    /// Returns true when all nodes lie in one connected component.
    pub fn is_connected(&self) -> (r: bool)
        requires
            self.well_formed(),
        ensures
            r == self.spec_connected(),
    {
        broadcast use vstd::seq_lib::seq_to_set_is_finite;

        if self.node_storage.len() == 0 {
            proof {
                assert forall|a: usize| !self.spec_has_node(a) by {
                    assert(self.ids().len() == 0);
                }
            }
            true
        } else {
            let s = self.node_storage[0].node_id;
            proof {
                assert(self.ids()[0] == s);
            }
            let visited = self.reach_from(s);
            let r = visited.len() == self.node_storage.len();
            proof {
                assert(self.ids().no_duplicates());
                visited@.unique_seq_to_set();
                self.ids().unique_seq_to_set();
                if r {
                    assert(visited@.to_set().subset_of(self.ids().to_set())) by {
                        assert forall|x: usize|
                            visited@.to_set().contains(x) implies self.ids().to_set().contains(
                            x) by {
                            assert(visited@.contains(x));
                            let w = choose|w: int|
                                0 <= w < visited@.len() && visited@[w] == x;
                            assert(self.spec_has_node(visited@[w]));
                        }
                    }
                    vstd::set_lib::lemma_subset_equality(
                        visited@.to_set(),
                        self.ids().to_set(),
                    );
                    assert forall|a: usize, b: usize|
                        self.spec_has_node(a) && self.spec_has_node(b) implies self.conn(
                        a,
                        b,
                    ) by {
                        assert(visited@.contains(a) && visited@.contains(b)) by {
                            assert(self.ids().to_set().contains(a));
                            assert(self.ids().to_set().contains(b));
                        }
                        self.lemma_conn_within_implies_conn(visited@.to_set(), s, a);
                        self.lemma_conn_within_implies_conn(visited@.to_set(), s, b);
                        self.lemma_conn_sym(s, a);
                        self.lemma_conn_trans(a, s, b);
                    }
                } else {
                    if self.spec_connected() {
                        assert(exists|x: usize|
                            self.spec_has_node(x) && !visited@.contains(x)) by {
                            if forall|x: usize|
                                self.spec_has_node(x) ==> #[trigger] visited@.contains(x) {
                                lemma_unique_len_le(self.ids(), visited@);
                                lemma_unique_len_le(visited@, self.ids());
                                assert(visited@.len() == self.ids().len());
                            }
                        }
                        let x = choose|x: usize|
                            self.spec_has_node(x) && !visited@.contains(x);
                        assert(self.conn(s, x));
                        assert(visited@.to_set().contains(s)) by {
                            assert(visited@[0] == s);
                        }
                        self.lemma_closed_covers_reachable(visited@.to_set(), s, x);
                        assert(false);
                    }
                }
            }
            r
        }
    }
}

/// Does `v` contain the pair `x`?
fn contains_pair(v: &Vec<(usize, usize)>, x: (usize, usize)) -> (r: bool)
    ensures
        r == v@.contains(x),
{
    let mut k: usize = 0;
    while k < v.len()
        invariant
            k <= v@.len(),
            forall|q: int| 0 <= q < k ==> v@[q] != x,
        decreases v@.len() - k,
    {
        if v[k].0 == x.0 && v[k].1 == x.1 {
            return true;
        }
        k += 1;
    }
    false
}

/// A copy of `v` in ascending order with duplicates dropped.
fn sorted_copy(v: &Vec<usize>) -> (r: Vec<usize>)
    ensures
        strictly_sorted(r@),
        forall|x: usize| r@.contains(x) == v@.contains(x),
{
    let mut r: Vec<usize> = Vec::new();
    let mut k: usize = 0;
    while k < v.len()
        invariant
            k <= v@.len(),
            strictly_sorted(r@),
            forall|x: usize| r@.contains(x) == v@.take(k as int).contains(x),
        decreases v@.len() - k,
    {
        insert_sorted(&mut r, v[k]);
        k += 1;
        proof {
            let t = v@.take(k as int);
            assert(t.drop_last() =~= v@.take(k - 1));
            assert(t.last() == v@[k - 1]);
            assert forall|x: usize| r@.contains(x) == t.contains(x) by {
                if t.contains(x) {
                    let w = choose|w: int| 0 <= w < t.len() && t[w] == x;
                    if w < k - 1 {
                        assert(v@.take(k - 1)[w] == x);
                        assert(v@.take(k - 1).contains(x));
                    }
                }
                if v@.take(k - 1).contains(x) {
                    let tp = v@.take(k - 1);
                    let w = choose|w: int| 0 <= w < tp.len() && tp[w] == x;
                    assert(t[w] == x);
                }
                if x == v@[k - 1] {
                    assert(t[k - 1] == x);
                }
            }
        }
    }
    proof {
        assert(v@.take(v@.len() as int) =~= v@);
    }
    r
}

impl Graph {
    /// Append one queue entry for each edge out of node `n` (storage index
    /// `i`), flagged with `flag`.
    fn push_node_edges(
        &self,
        queue: &mut Vec<(bool, (usize, usize))>,
        flag: bool,
        n: usize,
        i: usize,
    )
        requires
            self.uniq(),
            i < self.node_storage@.len(),
            self.node_storage@[i as int].node_id == n,
        ensures
            final(queue)@.len() == old(queue)@.len() + self.neighbours(n).len(),
            forall|k: int| 0 <= k < old(queue)@.len() ==> final(queue)@[k] == old(queue)@[k],
            forall|q: int|
                0 <= q < self.neighbours(n).len() ==> final(queue)@[old(queue)@.len() + q] == (
                flag,
                (n, self.neighbours(n)[q]),
            ),
    {
        proof {
            self.lemma_node_index(n, i as int);
        }
        let m = self.node_storage[i].connected_nodes.len();
        let mut q: usize = 0;
        while q < m
            invariant
                i < self.node_storage@.len(),
                self.neighbours(n) == self.node_storage@[i as int].connected_nodes@,
                m == self.neighbours(n).len(),
                q <= m,
                queue@.len() == old(queue)@.len() + q,
                forall|k: int| 0 <= k < old(queue)@.len() ==> queue@[k] == old(queue)@[k],
                forall|w: int|
                    0 <= w < q ==> queue@[old(queue)@.len() + w] == (
                    flag,
                    (n, self.neighbours(n)[w]),
                ),
            decreases m - q,
        {
            let nb = self.node_storage[i].connected_nodes[q];
            queue.push((flag, (n, nb)));
            q += 1;
        }
    }

    /// The traversal state that `partition_nodes` maintains: both sets hold
    /// distinct existing nodes and are internally connected to their roots,
    /// pending queue entries leave from a visited node, every edge out of a
    /// visited node is used or pending, and used edges join visited nodes.
    spec fn partition_inv(
        self,
        first_node: usize,
        second_node: usize,
        sa: Seq<usize>,
        sb: Seq<usize>,
        used: Seq<(usize, usize)>,
        queue: Seq<(bool, (usize, usize))>,
        head: int,
    ) -> bool {
        &&& 0 <= head <= queue.len()
        &&& sa.len() >= 1 && sa[0] == first_node
        &&& sb.len() >= 1 && sb[0] == second_node
        &&& sa.no_duplicates()
        &&& sb.no_duplicates()
        &&& sa.len() <= self.ids().len()
        &&& sb.len() <= self.ids().len()
        &&& (forall|k: int| 0 <= k < sa.len() ==> self.spec_has_node(#[trigger] sa[k]))
        &&& (forall|k: int| 0 <= k < sb.len() ==> self.spec_has_node(#[trigger] sb[k]))
        &&& (first_node != second_node ==> forall|x: usize| !(sa.contains(x) && sb.contains(x)))
        &&& (forall|x: usize| sa.contains(x) ==> self.conn_within(sa.to_set(), first_node, x))
        &&& (forall|x: usize| sb.contains(x) ==> self.conn_within(sb.to_set(), second_node, x))
        &&& (forall|k: int|
            head <= k < queue.len() ==> {
                let e = (#[trigger] queue[k]).1;
                &&& self.spec_has_edge(e.0, e.1)
                &&& (queue[k].0 ==> sa.contains(e.0))
                &&& (!queue[k].0 ==> sb.contains(e.0))
            })
        &&& (forall|p: int|
            0 <= p < used.len() ==> {
                let e = #[trigger] used[p];
                &&& (sa.contains(e.0) || sb.contains(e.0))
                &&& (sa.contains(e.1) || sb.contains(e.1))
            })
        &&& (forall|u: usize, v: usize|
            (sa.contains(u) || sb.contains(u)) && #[trigger] self.spec_has_edge(u, v) ==> (
            used.contains((u, v)) || exists|k: int|
                head <= k < queue.len() && (#[trigger] queue[k]).1 == (u, v)))
    }

    /// One traversal step: pop the next queue entry and, when its edge is
    /// fresh and leads to an unvisited node, claim that node for the side the
    /// edge came from.
    #[verifier::rlimit(100)]
    #[verifier::spinoff_prover]
    fn partition_step(
        &self,
        first_node: usize,
        second_node: usize,
        set_a: &mut Vec<usize>,
        set_b: &mut Vec<usize>,
        used: &mut Vec<(usize, usize)>,
        queue: &mut Vec<(bool, (usize, usize))>,
        head: &mut usize,
    )
        requires
            self.well_formed(),
            self.partition_inv(
                first_node,
                second_node,
                old(set_a)@,
                old(set_b)@,
                old(used)@,
                old(queue)@,
                *old(head) as int,
            ),
            *old(head) < old(queue)@.len(),
        ensures
            self.partition_inv(
                first_node,
                second_node,
                final(set_a)@,
                final(set_b)@,
                final(used)@,
                final(queue)@,
                *final(head) as int,
            ),
            *final(head) == *old(head) + 1,
            final(set_a)@.len() + final(set_b)@.len() >= old(set_a)@.len() + old(set_b)@.len(),
            final(set_a)@.len() + final(set_b)@.len() == old(set_a)@.len() + old(set_b)@.len()
                ==> final(queue)@ == old(queue)@,
    {
        let ghost qpre = queue@;
        let ghost hpre = *old(head) as int;
        let ghost used_pre = used@;
        let ghost sa_pre = set_a@;
        let ghost sb_pre = set_b@;
        let qlen = queue.len();
        let entry = queue[*head];
        let from_first = entry.0;
        let e = entry.1;
        proof {
            assert(*head < qlen);
        }
        *head = *head + 1;
        let already_used = contains_pair(used, e);
        if !already_used {
            used.push(e);
        }
        let rev = (e.1, e.0);
        if !contains_pair(used, rev) {
            used.push(rev);
        }
        proof {
            assert(self.spec_has_edge(e.0, e.1));
            assert(self.spec_has_edge(e.1, e.0));
        }
        let v = e.1;
        let in_a = contains_usize(set_a, v);
        let in_b = contains_usize(set_b, v);
        if !already_used && !in_a && !in_b {
            if from_first {
                set_a.push(v);
                proof {
                    self.lemma_set_grow(sa_pre, set_a@, first_node, e.0, v);
                    lemma_unique_len_le(set_a@, self.ids());
                }
            } else {
                set_b.push(v);
                proof {
                    self.lemma_set_grow(sb_pre, set_b@, second_node, e.0, v);
                    lemma_unique_len_le(set_b@, self.ids());
                }
            }
            let vi = self.find_node_index(v).unwrap();
            let ghost qmid = queue@;
            self.push_node_edges(queue, from_first, v, vi);
            proof {
                self.lemma_node_index(v, vi as int);
                if !from_first {
                    assert forall|x: usize| sa_pre.contains(x) implies set_a@.contains(x) by {}
                }
                if from_first {
                    assert forall|x: usize| sb_pre.contains(x) implies set_b@.contains(x) by {}
                }
                assert forall|x: usize| sa_pre.contains(x) implies set_a@.contains(x) by {
                    if !from_first {
                    } else {
                        let w = choose|w: int| 0 <= w < sa_pre.len() && sa_pre[w] == x;
                        assert(set_a@[w] == x);
                    }
                }
                assert forall|x: usize| sb_pre.contains(x) implies set_b@.contains(x) by {
                    if from_first {
                    } else {
                        let w = choose|w: int| 0 <= w < sb_pre.len() && sb_pre[w] == x;
                        assert(set_b@[w] == x);
                    }
                }
                // pending entries remain valid
                assert forall|k: int| *head <= k < queue@.len() implies {
                    let ee = (#[trigger] queue@[k]).1;
                    &&& self.spec_has_edge(ee.0, ee.1)
                    &&& (queue@[k].0 ==> set_a@.contains(ee.0))
                    &&& (!queue@[k].0 ==> set_b@.contains(ee.0))
                } by {
                    if k < qmid.len() {
                        assert(queue@[k] == qpre[k]);
                    } else {
                        assert(queue@[k] == (
                            from_first,
                            (v, self.neighbours(v)[k - qmid.len()]),
                        ));
                        assert(self.neighbours(v).contains(self.neighbours(v)[k - qmid.len()]));
                        assert(set_a@.contains(v) || set_b@.contains(v)) by {
                            if from_first {
                                assert(set_a@.last() == v);
                            } else {
                                assert(set_b@.last() == v);
                            }
                        }
                    }
                }
                // every edge out of a visited node is used or pending
                assert forall|u: usize, w: usize|
                    (set_a@.contains(u) || set_b@.contains(u)) && #[trigger] self.spec_has_edge(
                        u,
                        w,
                    ) implies (used@.contains((u, w)) || exists|k: int|
                    *head <= k < queue@.len() && (#[trigger] queue@[k]).1 == (u, w)) by {
                    if u == v {
                        let q = choose|q: int|
                            0 <= q < self.neighbours(u).len() && self.neighbours(u)[q] == w;
                        assert(queue@[qmid.len() + q] == (from_first, (u, w)));
                        assert(*head <= qmid.len() + q < queue@.len());
                    } else {
                        assert(sa_pre.contains(u) || sb_pre.contains(u)) by {
                            if set_a@.contains(u) {
                                let ww = choose|ww: int|
                                    0 <= ww < set_a@.len() && set_a@[ww] == u;
                                if from_first && ww == set_a@.len() - 1 {
                                    assert(u == v);
                                } else {
                                    assert(sa_pre[ww] == u);
                                }
                            } else {
                                let ww = choose|ww: int|
                                    0 <= ww < set_b@.len() && set_b@[ww] == u;
                                if !from_first && ww == set_b@.len() - 1 {
                                    assert(u == v);
                                } else {
                                    assert(sb_pre[ww] == u);
                                }
                            }
                        }
                        if used_pre.contains((u, w)) {
                            let p = choose|p: int|
                                0 <= p < used_pre.len() && used_pre[p] == (u, w);
                            assert(used@[p] == (u, w));
                        } else {
                            let k = choose|k: int|
                                hpre <= k < qpre.len() && (#[trigger] qpre[k]).1 == (u, w);
                            if k == hpre {
                                assert((u, w) == e);
                                assert(used@[used_pre.len() as int] == e);
                            } else {
                                assert(queue@[k] == qpre[k]);
                            }
                        }
                    }
                }
                self.lemma_used_endpoints(
                    sa_pre,
                    sb_pre,
                    set_a@,
                    set_b@,
                    used_pre,
                    used@,
                    e,
                    rev,
                    already_used,
                    in_a,
                    in_b,
                    true,
                );
            }
        } else {
            proof {
                assert(used@.contains(e)) by {
                    if already_used {
                        let p = choose|p: int|
                            0 <= p < used_pre.len() && used_pre[p] == e;
                        assert(used@[p] == e);
                    } else {
                        assert(used@[used_pre.len() as int] == e);
                    }
                }
                self.lemma_completeness_no_visit(
                    sa_pre,
                    sb_pre,
                    used_pre,
                    used@,
                    qpre,
                    queue@,
                    hpre,
                    *head as int,
                    e,
                );
                self.lemma_used_endpoints(
                    sa_pre,
                    sb_pre,
                    set_a@,
                    set_b@,
                    used_pre,
                    used@,
                    e,
                    rev,
                    already_used,
                    in_a,
                    in_b,
                    false,
                );
            }
        }
    }

    /// Pushing a fresh node joined by an edge from a member keeps the set
    /// duplicate-free and internally connected to its root.
    proof fn lemma_set_grow(
        self,
        pre: Seq<usize>,
        post: Seq<usize>,
        root: usize,
        u: usize,
        v: usize,
    )
        requires
            self.well_formed(),
            post == pre.push(v),
            pre.no_duplicates(),
            !pre.contains(v),
            pre.contains(u),
            self.spec_has_edge(u, v),
            forall|x: usize| pre.contains(x) ==> self.conn_within(pre.to_set(), root, x),
        ensures
            post.no_duplicates(),
            post.contains(v),
            forall|x: usize| pre.contains(x) ==> post.contains(x),
            forall|x: usize| post.contains(x) ==> (pre.contains(x) || x == v),
            forall|x: usize| post.contains(x) ==> self.conn_within(post.to_set(), root, x),
    {
        assert(post.drop_last() =~= pre);
        assert(post.contains(v)) by {
            assert(post.last() == v);
        }
        assert forall|x: usize| pre.contains(x) implies post.contains(x) by {
            let w = choose|w: int| 0 <= w < pre.len() && pre[w] == x;
            assert(post[w] == x);
        }
        assert forall|x: usize| post.contains(x) implies (pre.contains(x) || x == v) by {
            let w = choose|w: int| 0 <= w < post.len() && post[w] == x;
            if w < pre.len() {
                assert(pre[w] == x);
            }
        }
        assert(pre.to_set().subset_of(post.to_set()));
        assert(self.spec_has_node(v));
        assert forall|x: usize| post.contains(x) implies self.conn_within(
            post.to_set(),
            root,
            x,
        ) by {
            if pre.contains(x) {
                self.lemma_conn_within_mono(pre.to_set(), post.to_set(), root, x);
            } else {
                self.lemma_conn_within_mono(pre.to_set(), post.to_set(), root, u);
                self.lemma_conn_within_step(post.to_set(), root, u, v);
            }
        }
    }

    /// The used list keeps both endpoints of each entry inside the visited
    /// sets, whichever way the step went.
    proof fn lemma_used_endpoints(
        self,
        sa_pre: Seq<usize>,
        sb_pre: Seq<usize>,
        sa: Seq<usize>,
        sb: Seq<usize>,
        used_pre: Seq<(usize, usize)>,
        used: Seq<(usize, usize)>,
        e: (usize, usize),
        rev: (usize, usize),
        already_used: bool,
        in_a: bool,
        in_b: bool,
        visited_new: bool,
    )
        requires
            rev == (e.1, e.0),
            forall|p: int| 0 <= p < used_pre.len() ==> used[p] == used_pre[p],
            forall|p: int|
                used_pre.len() <= p < used.len() ==> (used[p] == e || used[p] == rev),
            forall|p: int|
                0 <= p < used_pre.len() ==> {
                    let ee = #[trigger] used_pre[p];
                    &&& (sa_pre.contains(ee.0) || sb_pre.contains(ee.0))
                    &&& (sa_pre.contains(ee.1) || sb_pre.contains(ee.1))
                },
            forall|x: usize| sa_pre.contains(x) ==> sa.contains(x),
            forall|x: usize| sb_pre.contains(x) ==> sb.contains(x),
            sa_pre.contains(e.0) || sb_pre.contains(e.0),
            already_used ==> used_pre.contains(e),
            in_a ==> sa_pre.contains(e.1),
            in_b ==> sb_pre.contains(e.1),
            visited_new ==> (sa.contains(e.1) || sb.contains(e.1)),
            used.len() > used_pre.len() ==> (already_used || in_a || in_b || visited_new),
        ensures
            forall|p: int|
                0 <= p < used.len() ==> {
                    let ee = #[trigger] used[p];
                    &&& (sa.contains(ee.0) || sb.contains(ee.0))
                    &&& (sa.contains(ee.1) || sb.contains(ee.1))
                },
    {
        assert forall|p: int| 0 <= p < used.len() implies {
            let ee = #[trigger] used[p];
            &&& (sa.contains(ee.0) || sb.contains(ee.0))
            &&& (sa.contains(ee.1) || sb.contains(ee.1))
        } by {
            if p < used_pre.len() {
                assert(used[p] == used_pre[p]);
            } else {
                assert(used[p] == e || used[p] == rev);
                assert(sa.contains(e.0) || sb.contains(e.0));
                assert(sa.contains(e.1) || sb.contains(e.1)) by {
                    if already_used {
                        let w = choose|w: int|
                            0 <= w < used_pre.len() && used_pre[w] == e;
                        assert(sa_pre.contains(e.1) || sb_pre.contains(e.1));
                    }
                }
            }
        }
    }

    /// When an edge is popped without visiting a new node, every edge out of
    /// the visited sets stays accounted for.
    proof fn lemma_completeness_no_visit(
        self,
        sa: Seq<usize>,
        sb: Seq<usize>,
        used_pre: Seq<(usize, usize)>,
        used_post: Seq<(usize, usize)>,
        qpre: Seq<(bool, (usize, usize))>,
        qpost: Seq<(bool, (usize, usize))>,
        hpre: int,
        hpost: int,
        e: (usize, usize),
    )
        requires
            hpost == hpre + 1,
            0 <= hpre < qpre.len(),
            qpost == qpre,
            qpre[hpre].1 == e,
            used_post.contains(e),
            forall|p: int| 0 <= p < used_pre.len() ==> used_post[p] == used_pre[p],
            used_post.len() >= used_pre.len(),
            forall|u: usize, v: usize|
                (sa.contains(u) || sb.contains(u)) && #[trigger] self.spec_has_edge(u, v) ==> (
                used_pre.contains((u, v)) || exists|k: int|
                    hpre <= k < qpre.len() && (#[trigger] qpre[k]).1 == (u, v)),
        ensures
            forall|u: usize, v: usize|
                (sa.contains(u) || sb.contains(u)) && #[trigger] self.spec_has_edge(u, v) ==> (
                used_post.contains((u, v)) || exists|k: int|
                    hpost <= k < qpost.len() && (#[trigger] qpost[k]).1 == (u, v)),
    {
        assert forall|u: usize, v: usize|
            (sa.contains(u) || sb.contains(u)) && #[trigger] self.spec_has_edge(u, v) implies (
            used_post.contains((u, v)) || exists|k: int|
                hpost <= k < qpost.len() && (#[trigger] qpost[k]).1 == (u, v)) by {
            if used_pre.contains((u, v)) {
                let p = choose|p: int| 0 <= p < used_pre.len() && used_pre[p] == (u, v);
                assert(used_post[p] == (u, v));
            } else {
                let k = choose|k: int|
                    hpre <= k < qpre.len() && (#[trigger] qpre[k]).1 == (u, v);
                if k == hpre {
                    assert((u, v) == e);
                }
            }
        }
    }

    /// Split the graph into a component grown from `first_node` and one grown
    /// from `second_node`, by a simultaneous traversal along disjoint edge
    /// sets. Each returned list is ascending; the two lists are disjoint,
    /// each is internally connected, and together they cover every node when
    /// the graph is connected.
    pub fn partition_nodes(&self, first_node: usize, second_node: usize) -> (r: Result<
        (Vec<usize>, Vec<usize>),
        GraphError,
    >)
        requires
            self.well_formed(),
        ensures
            match r {
                Ok(parts) => {
                    let (va, vb) = parts;
                    &&& self.spec_has_node(first_node) && self.spec_has_node(second_node)
                    &&& strictly_sorted(va@) && strictly_sorted(vb@)
                    &&& va@.contains(first_node) && vb@.contains(second_node)
                    &&& (forall|x: usize| va@.contains(x) ==> self.spec_has_node(x))
                    &&& (forall|x: usize| vb@.contains(x) ==> self.spec_has_node(x))
                    &&& (first_node != second_node ==> forall|x: usize|
                        !(va@.contains(x) && vb@.contains(x)))
                    &&& (self.spec_connected() ==> forall|x: usize|
                        self.spec_has_node(x) ==> (va@.contains(x) || vb@.contains(x)))
                    &&& (forall|x: usize|
                        va@.contains(x) ==> self.conn_within(va@.to_set(), first_node, x))
                    &&& (forall|x: usize|
                        vb@.contains(x) ==> self.conn_within(vb@.to_set(), second_node, x))
                },
                Err(e) => {
                    &&& (e == GraphError::NodeNotFound(first_node) && !self.spec_has_node(
                        first_node,
                    )) || (e == GraphError::NodeNotFound(second_node) && self.spec_has_node(
                        first_node,
                    ) && !self.spec_has_node(second_node))
                },
            },
    {
        let ia = match self.find_node_index(first_node) {
            Some(i) => i,
            None => {
                return Err(GraphError::NodeNotFound(first_node));
            },
        };
        let ib = match self.find_node_index(second_node) {
            Some(i) => i,
            None => {
                proof {
                    self.lemma_node_index(first_node, ia as int);
                }
                return Err(GraphError::NodeNotFound(second_node));
            },
        };
        proof {
            self.lemma_node_index(first_node, ia as int);
            self.lemma_node_index(second_node, ib as int);
            assert(self.ids().no_duplicates());
        }
        let mut set_a: Vec<usize> = Vec::new();
        set_a.push(first_node);
        let mut set_b: Vec<usize> = Vec::new();
        set_b.push(second_node);
        let mut used: Vec<(usize, usize)> = Vec::new();
        let mut queue: Vec<(bool, (usize, usize))> = Vec::new();
        self.push_node_edges(&mut queue, true, first_node, ia);
        self.push_node_edges(&mut queue, false, second_node, ib);
        let mut head: usize = 0;
        proof {
            assert(set_a@[0] == first_node);
            assert(set_a@.contains(first_node));
            assert(set_b@[0] == second_node);
            assert(set_b@.contains(second_node));
            self.lemma_conn_refl(first_node);
            self.lemma_conn_refl(second_node);
            assert(set![first_node].subset_of(set_a@.to_set())) by {
                assert(set_a@.to_set().contains(first_node));
            }
            assert(set![second_node].subset_of(set_b@.to_set())) by {
                assert(set_b@.to_set().contains(second_node));
            }
            self.lemma_conn_within_mono(
                set![first_node],
                set_a@.to_set(),
                first_node,
                first_node,
            );
            self.lemma_conn_within_mono(
                set![second_node],
                set_b@.to_set(),
                second_node,
                second_node,
            );
            lemma_unique_len_le(set_a@, self.ids());
            lemma_unique_len_le(set_b@, self.ids());
            let na = self.neighbours(first_node).len() as int;
            assert forall|k: int| head <= k < queue@.len() implies {
                let e = (#[trigger] queue@[k]).1;
                &&& self.spec_has_edge(e.0, e.1)
                &&& (queue@[k].0 ==> set_a@.contains(e.0))
                &&& (!queue@[k].0 ==> set_b@.contains(e.0))
            } by {
                if k < na {
                    assert(queue@[k] == (true, (first_node, self.neighbours(first_node)[k])));
                    assert(self.neighbours(first_node).contains(
                        self.neighbours(first_node)[k],
                    ));
                } else {
                    assert(queue@[k] == (
                        false,
                        (second_node, self.neighbours(second_node)[k - na]),
                    ));
                    assert(self.neighbours(second_node).contains(
                        self.neighbours(second_node)[k - na],
                    ));
                }
            }
            assert forall|u: usize, v: usize|
                (set_a@.contains(u) || set_b@.contains(u)) && #[trigger] self.spec_has_edge(
                    u,
                    v,
                ) implies (used@.contains((u, v)) || exists|k: int|
                head <= k < queue@.len() && (#[trigger] queue@[k]).1 == (u, v)) by {
                if set_a@.contains(u) {
                    assert(u == first_node);
                    let q = choose|q: int|
                        0 <= q < self.neighbours(u).len() && self.neighbours(u)[q] == v;
                    assert(queue@[q] == (true, (u, v)));
                } else {
                    assert(u == second_node);
                    let q = choose|q: int|
                        0 <= q < self.neighbours(u).len() && self.neighbours(u)[q] == v;
                    assert(queue@[na + q] == (false, (u, v)));
                }
            }
        }
        while head < queue.len()
            invariant
                self.well_formed(),
                self.partition_inv(
                    first_node,
                    second_node,
                    set_a@,
                    set_b@,
                    used@,
                    queue@,
                    head as int,
                ),
            decreases
                2 * self.ids().len() - set_a@.len() - set_b@.len(),
                queue@.len() - head,
        {
            self.partition_step(
                first_node,
                second_node,
                &mut set_a,
                &mut set_b,
                &mut used,
                &mut queue,
                &mut head,
            );
        }
        proof {
            assert forall|u: usize, v: usize|
                (set_a@.contains(u) || set_b@.contains(u)) && #[trigger] self.spec_has_edge(
                    u,
                    v,
                ) implies (set_a@.contains(v) || set_b@.contains(v)) by {
                assert(used@.contains((u, v)));
                let p = choose|p: int| 0 <= p < used@.len() && used@[p] == (u, v);
            }
            if self.spec_connected() {
                let uni = set_a@.to_set().union(set_b@.to_set());
                assert forall|x: usize| self.spec_has_node(x) implies (set_a@.contains(x)
                    || set_b@.contains(x)) by {
                    assert(self.conn(first_node, x));
                    assert(uni.contains(first_node));
                    self.lemma_closed_covers_reachable(uni, first_node, x);
                }
            }
        }
        let va = sorted_copy(&set_a);
        let vb = sorted_copy(&set_b);
        proof {
            assert(va@.to_set() =~= set_a@.to_set());
            assert(vb@.to_set() =~= set_b@.to_set());
        }
        Ok((va, vb))
    }
}

/// Remove the value `b` from the strictly sorted vector `v`, if present.
fn remove_value(v: &mut Vec<usize>, b: usize)
    requires
        strictly_sorted(old(v)@),
    ensures
        strictly_sorted(final(v)@),
        forall|x: usize| final(v)@.contains(x) == (old(v)@.contains(x) && x != b),
{
    let mut j: usize = 0;
    while j < v.len()
        invariant
            j <= v@.len(),
            v == old(v),
            strictly_sorted(v@),
            forall|k: int| 0 <= k < j ==> v@[k] != b,
        decreases v@.len() - j,
    {
        if v[j] == b {
            let ghost s = v@;
            v.remove(j);
            proof {
                assert forall|x: usize| v@.contains(x) == (s.contains(x) && x != b) by {
                    if v@.contains(x) {
                        let w = choose|w: int| 0 <= w < v@.len() && v@[w] == x;
                        if w < j {
                            assert(s[w] == x);
                            assert(x != b);
                        } else {
                            assert(s[w + 1] == x);
                            assert(x != b);
                        }
                        assert(s.contains(x));
                    }
                    if s.contains(x) && x != b {
                        let w = choose|w: int| 0 <= w < s.len() && s[w] == x;
                        if w < j {
                            assert(v@[w] == x);
                        } else {
                            assert(w != j);
                            assert(v@[w - 1] == x);
                        }
                    }
                }
                assert forall|p: int, q: int| 0 <= p < q < v@.len() implies v@[p] < v@[q] by {
                    if q < j {
                        assert(v@[p] == s[p] && v@[q] == s[q]);
                    } else if p < j {
                        assert(v@[p] == s[p] && v@[q] == s[q + 1]);
                    } else {
                        assert(v@[p] == s[p + 1] && v@[q] == s[q + 1]);
                    }
                }
            }
            return ;
        }
        j += 1;
    }
    proof {
        assert(!v@.contains(b));
    }
}

impl Graph {
    /// Returns the nodes with at most one neighbour, in ascending order.
    pub fn find_leaves(&self) -> (r: Vec<usize>)
        requires
            self.well_formed(),
        ensures
            strictly_sorted(r@),
            forall|x: usize|
                r@.contains(x) == (self.spec_has_node(x) && self.neighbours(x).len() <= 1),
    {
        let mut r: Vec<usize> = Vec::new();
        let mut i: usize = 0;
        while i < self.node_storage.len()
            invariant
                self.well_formed(),
                i <= self.node_storage@.len(),
                strictly_sorted(r@),
                forall|x: usize|
                    r@.contains(x) == exists|k: int|
                        0 <= k < i && (#[trigger] self.node_storage@[k]).node_id == x
                            && self.nbrs_at(k).len() <= 1,
            decreases self.node_storage@.len() - i,
        {
            let ghost rpre = r@;
            if self.node_storage[i].connected_nodes.len() <= 1 {
                insert_sorted(&mut r, self.node_storage[i].node_id);
            }
            i += 1;
            proof {
                assert forall|x: usize|
                    r@.contains(x) == exists|k: int|
                        0 <= k < i && (#[trigger] self.node_storage@[k]).node_id == x
                            && self.nbrs_at(k).len() <= 1 by {
                    if r@.contains(x) {
                        if rpre.contains(x) {
                            let k = choose|k: int|
                                0 <= k < i - 1 && (#[trigger] self.node_storage@[k]).node_id
                                    == x && self.nbrs_at(k).len() <= 1;
                            assert(self.node_storage@[k].node_id == x);
                        } else {
                            assert(x == self.node_storage@[i - 1].node_id);
                            assert(self.nbrs_at(i - 1).len() <= 1);
                        }
                    }
                    if exists|k: int|
                        0 <= k < i && (#[trigger] self.node_storage@[k]).node_id == x
                            && self.nbrs_at(k).len() <= 1 {
                        let k = choose|k: int|
                            0 <= k < i && (#[trigger] self.node_storage@[k]).node_id == x
                                && self.nbrs_at(k).len() <= 1;
                        if k < i - 1 {
                            assert(rpre.contains(x));
                            assert(r@.contains(x));
                        } else {
                            assert(self.nbrs_at(i - 1).len() <= 1);
                            assert(r@.contains(x));
                        }
                    }
                }
            }
        }
        proof {
            assert forall|x: usize|
                r@.contains(x) == (self.spec_has_node(x) && self.neighbours(x).len() <= 1) by {
                if r@.contains(x) {
                    let k = choose|k: int|
                        0 <= k < self.node_storage@.len() && (
                        #[trigger] self.node_storage@[k]).node_id == x && self.nbrs_at(k).len()
                            <= 1;
                    self.lemma_node_index(x, k);
                }
                if self.spec_has_node(x) && self.neighbours(x).len() <= 1 {
                    let k = choose|k: int|
                        0 <= k < self.ids().len() && self.ids()[k] == x;
                    self.lemma_node_index(x, k);
                    assert(self.node_storage@[k].node_id == x);
                    assert(self.nbrs_at(k).len() <= 1);
                }
            }
        }
        r
    }

    /// Delete the node and all edges that touch it; returns whether the node
    /// was present.
    fn delete_node(&mut self, node_id: usize) -> (r: bool)
        requires
            old(self).well_formed(),
        ensures
            final(self).well_formed(),
            r == old(self).spec_has_node(node_id),
            forall|x: usize|
                final(self).spec_has_node(x) == (old(self).spec_has_node(x) && x != node_id),
            forall|a: usize, b: usize|
                final(self).spec_has_edge(a, b) == (old(self).spec_has_edge(a, b) && a != node_id
                    && b != node_id),
    {
        let i = match self.find_node_index(node_id) {
            Some(i) => i,
            None => {
                proof {
                    assert forall|a: usize, b: usize| #[trigger] self.spec_has_edge(a, b)
                        implies a != node_id && b != node_id by {
                        assert(self.spec_has_node(a));
                        if self.neighbours(a).contains(b) {
                            assert(self.spec_has_edge(b, a));
                        }
                    }
                }
                return false;
            },
        };
        proof {
            self.lemma_node_index(node_id, i as int);
        }
        self.node_storage.remove(i);
        let ghost mid = *self;
        proof {
            old(self).node_storage@.remove_ensures(i as int);
            assert forall|m: int|
                0 <= m < mid.node_storage@.len() implies mid.node_storage@[m] == old(
                self,
            ).node_storage@[if m < i { m } else { m + 1 }] by {}
        }
        let mut k: usize = 0;
        while k < self.node_storage.len()
            invariant
                old(self).well_formed(),
                i < old(self).node_storage@.len(),
                mid.node_storage@ == old(self).node_storage@.remove(i as int),
                mid.node_storage@.len() == self.node_storage@.len(),
                k <= self.node_storage@.len(),
                forall|m: int|
                    k <= m < self.node_storage@.len() ==> self.node_storage@[m]
                        == mid.node_storage@[m],
                forall|m: int|
                    0 <= m < k ==> (#[trigger] self.node_storage@[m]).node_id
                        == mid.node_storage@[m].node_id,
                forall|m: int| 0 <= m < k ==> strictly_sorted(#[trigger] self.nbrs_at(m)),
                forall|m: int, x: usize|
                    0 <= m < k ==> (#[trigger] self.nbrs_at(m).contains(x)) == (
                    mid.nbrs_at(m).contains(x) && x != node_id),
            decreases self.node_storage@.len() - k,
        {
            let ghost pre = *self;
            let mut gn = self.node_storage.remove(k);
            proof {
                assert(gn == mid.node_storage@[k as int]);
                assert(strictly_sorted(gn.connected_nodes@)) by {
                    assert(mid.nbrs_at(k as int) == gn.connected_nodes@);
                    old(self).node_storage@.remove_ensures(i as int);
                    if k < i {
                        assert(mid.node_storage@[k as int] == old(self).node_storage@[k as int]);
                        assert(old(self).nbrs_at(k as int) == gn.connected_nodes@);
                    } else {
                        assert(mid.node_storage@[k as int] == old(self).node_storage@[k + 1]);
                        assert(old(self).nbrs_at(k + 1) == gn.connected_nodes@);
                    }
                }
            }
            remove_value(&mut gn.connected_nodes, node_id);
            self.node_storage.insert(k, gn);
            k += 1;
            proof {
                assert forall|m: int|
                    k <= m < self.node_storage@.len() implies self.node_storage@[m]
                    == mid.node_storage@[m] by {
                    assert(self.node_storage@[m] == pre.node_storage@[m]);
                }
                assert forall|m: int|
                    0 <= m < k implies (#[trigger] self.node_storage@[m]).node_id
                    == mid.node_storage@[m].node_id by {
                    if m < k - 1 {
                        assert(self.node_storage@[m] == pre.node_storage@[m]);
                    }
                }
                assert forall|m: int, x: usize|
                    0 <= m < k implies (#[trigger] self.nbrs_at(m).contains(x)) == (
                    mid.nbrs_at(m).contains(x) && x != node_id) by {
                    if m < k - 1 {
                        assert(self.node_storage@[m] == pre.node_storage@[m]);
                        assert(self.nbrs_at(m) == pre.nbrs_at(m));
                    }
                }
                assert forall|m: int|
                    0 <= m < k implies strictly_sorted(#[trigger] self.nbrs_at(m)) by {
                    if m < k - 1 {
                        assert(self.node_storage@[m] == pre.node_storage@[m]);
                        assert(self.nbrs_at(m) == pre.nbrs_at(m));
                    }
                }
            }
        }
        proof {
            self.lemma_after_delete(*old(self), mid, node_id, i as int);
        }
        true
    }

    /// Relates the cleaned storage to the graph before the deletion.
    proof fn lemma_after_delete(self, pre: Graph, mid: Graph, node_id: usize, i: int)
        requires
            pre.well_formed(),
            0 <= i < pre.node_storage@.len(),
            pre.node_storage@[i].node_id == node_id,
            mid.node_storage@ == pre.node_storage@.remove(i),
            mid.node_storage@.len() == self.node_storage@.len(),
            forall|m: int|
                0 <= m < self.node_storage@.len() ==> (#[trigger] self.node_storage@[m]).node_id
                    == mid.node_storage@[m].node_id,
            forall|m: int|
                0 <= m < self.node_storage@.len() ==> strictly_sorted(#[trigger] self.nbrs_at(m)),
            forall|m: int, x: usize|
                0 <= m < self.node_storage@.len() ==> (#[trigger] self.nbrs_at(m).contains(x))
                    == (mid.nbrs_at(m).contains(x) && x != node_id),
        ensures
            self.well_formed(),
            forall|x: usize| self.spec_has_node(x) == (pre.spec_has_node(x) && x != node_id),
            forall|a: usize, b: usize|
                self.spec_has_edge(a, b) == (pre.spec_has_edge(a, b) && a != node_id && b
                    != node_id),
    {
        let n = self.node_storage@.len() as int;
        pre.node_storage@.remove_ensures(i);
        assert forall|m: int|
            0 <= m < n implies mid.node_storage@[m] == pre.node_storage@[
            if m < i { m } else { m + 1 }
        ] by {}
        assert forall|m: int, mm: int|
            0 <= m < mm < n implies (#[trigger] self.node_storage@[m].node_id) != (
            #[trigger] self.node_storage@[mm].node_id) by {
            let pm: int = if m < i { m } else { m + 1 };
            let pmm: int = if mm < i { mm } else { mm + 1 };
            assert(pre.node_storage@[pm].node_id == self.node_storage@[m].node_id);
            assert(pre.node_storage@[pmm].node_id == self.node_storage@[mm].node_id);
        }
        assert forall|x: usize|
            self.spec_has_node(x) == (pre.spec_has_node(x) && x != node_id) by {
            if self.spec_has_node(x) {
                let w = choose|w: int| 0 <= w < self.ids().len() && self.ids()[w] == x;
                let pw: int = if w < i { w } else { w + 1 };
                assert(pre.node_storage@[pw].node_id == x);
                assert(pre.ids()[pw] == x);
                assert(x != node_id) by {
                    if x == node_id {
                        assert(pre.node_storage@[i].node_id == node_id);
                    }
                }
            }
            if pre.spec_has_node(x) && x != node_id {
                let w = choose|w: int| 0 <= w < pre.ids().len() && pre.ids()[w] == x;
                assert(pre.node_storage@[w].node_id == x);
                assert(w != i);
                let sw: int = if w < i { w } else { w - 1 };
                assert(self.node_storage@[sw].node_id == x);
                assert(self.ids()[sw] == x);
            }
        }
        assert forall|a: usize, b: usize|
            self.spec_has_edge(a, b) == (pre.spec_has_edge(a, b) && a != node_id && b
                != node_id) by {
            if self.spec_has_node(a) {
                let w = self.node_index(a);
                assert(self.node_storage@[w].node_id == a);
                self.lemma_node_index(a, w);
                let pw: int = if w < i { w } else { w + 1 };
                assert(pre.node_storage@[pw].node_id == a);
                pre.lemma_node_index(a, pw);
                assert(self.neighbours(a) == self.nbrs_at(w));
                assert(pre.neighbours(a) == pre.nbrs_at(pw));
                assert(mid.nbrs_at(w) == pre.nbrs_at(pw));
                assert(self.spec_has_edge(a, b) == (self.nbrs_at(w).contains(b)));
                assert(self.nbrs_at(w).contains(b) == (pre.nbrs_at(pw).contains(b) && b
                    != node_id));
            } else {
                if pre.spec_has_edge(a, b) && a != node_id {
                    assert(pre.spec_has_node(a));
                    assert(self.spec_has_node(a));
                }
            }
        }
        assert forall|m: int, p: int|
            0 <= m < n && 0 <= p < self.nbrs_at(m).len() implies self.spec_has_node(
            #[trigger] self.nbrs_at(m)[p]) by {
            let x = self.nbrs_at(m)[p];
            assert(self.nbrs_at(m).contains(x));
            assert(mid.nbrs_at(m).contains(x) && x != node_id);
            let pm: int = if m < i { m } else { m + 1 };
            assert(pre.nbrs_at(pm).contains(x));
            let q = choose|q: int| 0 <= q < pre.nbrs_at(pm).len() && pre.nbrs_at(pm)[q] == x;
            assert(pre.spec_has_node(pre.nbrs_at(pm)[q]));
        }
        assert forall|a: usize, b: usize| #[trigger] self.spec_has_edge(a, b)
            implies self.spec_has_edge(b, a) by {
            assert(pre.spec_has_edge(a, b) && a != node_id && b != node_id);
            assert(pre.spec_has_edge(b, a));
        }
    }

    /// The node with the smallest id that is not in `forbidden`.
    fn first_node_not_in_set(&self, forbidden: &Vec<usize>) -> (r: Option<usize>)
        ensures
            match r {
                Some(m) => self.spec_has_node(m) && !forbidden@.contains(m) && forall|y: usize|
                    self.spec_has_node(y) && !forbidden@.contains(y) ==> m <= y,
                None => forall|x: usize|
                    self.spec_has_node(x) ==> #[trigger] forbidden@.contains(x),
            },
    {
        let mut best: Option<usize> = None;
        let mut i: usize = 0;
        while i < self.node_storage.len()
            invariant
                i <= self.node_storage@.len(),
                match best {
                    Some(m) => self.spec_has_node(m) && !forbidden@.contains(m) && forall|
                        k: int,
                    |
                        0 <= k < i && !forbidden@.contains(
                            (#[trigger] self.node_storage@[k]).node_id,
                        ) ==> m <= self.node_storage@[k].node_id,
                    None => forall|k: int|
                        0 <= k < i ==> forbidden@.contains(
                            (#[trigger] self.node_storage@[k]).node_id,
                        ),
                },
            decreases self.node_storage@.len() - i,
        {
            let id = self.node_storage[i].node_id;
            if !contains_usize(forbidden, id) {
                proof {
                    assert(self.ids()[i as int] == id);
                }
                match best {
                    Some(m) => {
                        if id < m {
                            best = Some(id);
                        }
                    },
                    None => {
                        best = Some(id);
                    },
                }
            }
            i += 1;
        }
        proof {
            if best is None {
                assert forall|x: usize| self.spec_has_node(x) implies #[trigger] forbidden@
                    .contains(x) by {
                    let w = choose|w: int| 0 <= w < self.ids().len() && self.ids()[w] == x;
                    assert(self.node_storage@[w].node_id == x);
                }
            } else {
                let m = best.unwrap();
                assert forall|y: usize|
                    self.spec_has_node(y) && !forbidden@.contains(y) implies m <= y by {
                    let w = choose|w: int| 0 <= w < self.ids().len() && self.ids()[w] == y;
                    assert(self.node_storage@[w].node_id == y);
                }
            }
        }
        best
    }

    proof fn lemma_conn_within_sym(self, s: Set<usize>, a: usize, b: usize)
        requires
            self.well_formed(),
            self.conn_within(s, a, b),
        ensures
            self.conn_within(s, b, a),
    {
        let p = choose|p: Seq<usize>|
            self.is_path_within(p, s) && p.first() == a && p.last() == b;
        let q = p.reverse();
        assert forall|k: int| 0 <= k < q.len() - 1 implies self.spec_has_edge(
            #[trigger] q[k],
            q[k + 1],
        ) by {
            let n = p.len();
            assert(q[k] == p[n - 1 - k] && q[k + 1] == p[n - 1 - (k + 1)]);
            assert(self.spec_has_edge(p[n - 2 - k], p[n - 1 - k]));
        }
        assert forall|k: int| 0 <= k < q.len() implies s.contains(#[trigger] q[k]) by {
            assert(q[k] == p[p.len() - 1 - k]);
        }
        assert(self.is_path_within(q, s));
        assert(q.first() == b && q.last() == a);
    }

    proof fn lemma_conn_within_trans(self, s: Set<usize>, a: usize, b: usize, c: usize)
        requires
            self.conn_within(s, a, b),
            self.conn_within(s, b, c),
        ensures
            self.conn_within(s, a, c),
    {
        let p = choose|p: Seq<usize>|
            self.is_path_within(p, s) && p.first() == a && p.last() == b;
        let q = choose|q: Seq<usize>|
            self.is_path_within(q, s) && q.first() == b && q.last() == c;
        let r = p + q.skip(1);
        assert(r.first() == a);
        assert(r.last() == if q.len() == 1 { p.last() } else { q.last() });
        assert forall|k: int| 0 <= k < r.len() - 1 implies self.spec_has_edge(
            #[trigger] r[k],
            r[k + 1],
        ) by {
            if k < p.len() - 1 {
                assert(r[k] == p[k] && r[k + 1] == p[k + 1]);
            } else if k == p.len() - 1 {
                if q.len() >= 2 {
                    assert(r[k] == p.last() && r[k + 1] == q[1]);
                    assert(self.spec_has_edge(q[0], q[1]));
                }
            } else {
                assert(r[k] == q[k - p.len() + 1] && r[k + 1] == q[k - p.len() + 2]);
            }
        }
        assert forall|k: int| 0 <= k < r.len() implies s.contains(#[trigger] r[k]) by {
            if k < p.len() {
                assert(r[k] == p[k]);
            } else {
                assert(r[k] == q[k - p.len() + 1]);
            }
        }
        assert(self.is_path_within(r, s));
    }

    /// What `get_connected_components` promises of its result: sorted,
    /// non-empty, node-valid, covering, pairwise disjoint, closed under
    /// edges, and internally connected component lists.
    pub open spec fn components_spec(self, comps: Seq<Vec<usize>>) -> bool {
        &&& (forall|c: int|
            0 <= c < comps.len() ==> strictly_sorted(#[trigger] comps[c]@) && comps[c]@.len()
                >= 1)
        &&& (forall|c: int, x: usize|
            0 <= c < comps.len() && (#[trigger] comps[c]@.contains(x)) ==> self.spec_has_node(
                x,
            ))
        &&& (forall|x: usize|
            self.spec_has_node(x) ==> exists|c: int|
                0 <= c < comps.len() && (#[trigger] comps[c]@.contains(x)))
        &&& (forall|c1: int, c2: int, x: usize|
            0 <= c1 < comps.len() && 0 <= c2 < comps.len() && c1 != c2 ==> !((
            #[trigger] comps[c1]@.contains(x)) && (#[trigger] comps[c2]@.contains(x))))
        &&& (forall|c: int, u: usize, v: usize|
            0 <= c < comps.len() && (#[trigger] comps[c]@.contains(u))
                && #[trigger] self.spec_has_edge(u, v) ==> comps[c]@.contains(v))
        &&& (forall|c: int, x: usize, y: usize|
            0 <= c < comps.len() && (#[trigger] comps[c]@.contains(x)) && (
            #[trigger] comps[c]@.contains(y)) ==> self.conn_within(comps[c]@.to_set(), x, y))
        &&& (forall|c1: int, c2: int|
            0 <= c1 < c2 < comps.len() ==> (#[trigger] comps[c1]@)[0] < (
            #[trigger] comps[c2]@)[0])
    }

    /// Return the connected components as lists of nodes, each ascending.
    /// The components are disjoint, cover every node, are closed under
    /// edges, and each is internally connected.
    pub fn get_connected_components(&self) -> (r: Result<Vec<Vec<usize>>, GraphError>)
        requires
            self.well_formed(),
        ensures
            match r {
                Ok(comps) => self.components_spec(comps@),
                Err(_) => false,
            },
    {
        let mut components: Vec<Vec<usize>> = Vec::new();
        let mut nodes_visited: Vec<usize> = Vec::new();
        proof {
            assert(self.ids().no_duplicates());
            lemma_unique_len_le(nodes_visited@, self.ids());
        }
        let mut start_opt = self.first_node_not_in_set(&nodes_visited);
        while start_opt.is_some()
            invariant
                self.well_formed(),
                match start_opt {
                    Some(m) => self.spec_has_node(m) && !nodes_visited@.contains(m) && forall|
                        y: usize,
                    |
                        self.spec_has_node(y) && !nodes_visited@.contains(y) ==> m <= y,
                    None => forall|x: usize|
                        self.spec_has_node(x) ==> #[trigger] nodes_visited@.contains(x),
                },
                nodes_visited@.no_duplicates(),
                nodes_visited@.len() <= self.ids().len(),
                forall|k: int|
                    0 <= k < nodes_visited@.len() ==> self.spec_has_node(
                        #[trigger] nodes_visited@[k],
                    ),
                forall|x: usize|
                    nodes_visited@.contains(x) == exists|c: int|
                        0 <= c < components@.len() && (#[trigger] components@[c]@.contains(x)),
                forall|c: int|
                    0 <= c < components@.len() ==> strictly_sorted(#[trigger] components@[c]@)
                        && components@[c]@.len() >= 1 && components@[c]@.no_duplicates(),
                forall|c: int, u: usize, v: usize|
                    0 <= c < components@.len() && (#[trigger] components@[c]@.contains(u))
                        && #[trigger] self.spec_has_edge(u, v) ==> components@[c]@.contains(v),
                forall|c: int, x: usize, y: usize|
                    0 <= c < components@.len() && (#[trigger] components@[c]@.contains(x)) && (
                    #[trigger] components@[c]@.contains(y)) ==> self.conn_within(
                        components@[c]@.to_set(),
                        x,
                        y,
                    ),
                forall|c1: int, c2: int, x: usize|
                    0 <= c1 < components@.len() && 0 <= c2 < components@.len() && c1 != c2
                        ==> !((#[trigger] components@[c1]@.contains(x)) && (
                        #[trigger] components@[c2]@.contains(x))),
                forall|c1: int, c2: int|
                    0 <= c1 < c2 < components@.len() ==> (#[trigger] components@[c1]@)[0] < (
                    #[trigger] components@[c2]@)[0],
                forall|c: int, y: usize|
                    #![trigger components@[c]@, nodes_visited@.contains(y)]
                    0 <= c < components@.len() && self.spec_has_node(y)
                        && !nodes_visited@.contains(y) ==> components@[c]@[0] < y,
            decreases self.ids().len() - nodes_visited@.len(),
        {
            let start = start_opt.unwrap();
            let comp_raw = self.reach_from(start);
            let comp = sorted_copy(&comp_raw);
            proof {
                assert(comp@.to_set() =~= comp_raw@.to_set());
                assert(comp@.contains(start)) by {
                    assert(comp_raw@[0] == start);
                    assert(comp_raw@.contains(start));
                }
                assert(comp@.len() >= 1) by {
                    let w = choose|w: int| 0 <= w < comp@.len() && comp@[w] == start;
                }
                assert(comp@.no_duplicates()) by {
                    assert forall|p: int, q: int|
                        0 <= p < q < comp@.len() implies comp@[p] != comp@[q] by {}
                }
                // the new component is disjoint from everything already found
                assert forall|c: int, x: usize|
                    0 <= c < components@.len() && #[trigger] comp@.contains(x) implies !(
                    #[trigger] components@[c]@.contains(x)) by {
                    if components@[c]@.contains(x) {
                        assert(self.conn_within(comp_raw@.to_set(), start, x));
                        self.lemma_conn_within_implies_conn(comp_raw@.to_set(), start, x);
                        self.lemma_conn_sym(start, x);
                        self.lemma_closed_covers_reachable(
                            components@[c]@.to_set(),
                            x,
                            start,
                        );
                        assert(components@[c]@.contains(start));
                        assert(nodes_visited@.contains(start));
                        assert(false);
                    }
                }
                // the new component is closed under edges
                assert forall|u: usize, v: usize|
                    comp@.contains(u) && #[trigger] self.spec_has_edge(u, v)
                    implies comp@.contains(v) by {
                    assert(comp_raw@.contains(u));
                    assert(comp_raw@.contains(v));
                }
                // internal connectivity, between any two members
                assert forall|x: usize, y: usize|
                    comp@.contains(x) && comp@.contains(y) implies self.conn_within(
                    comp@.to_set(),
                    x,
                    y,
                ) by {
                    assert(self.conn_within(comp_raw@.to_set(), start, x));
                    assert(self.conn_within(comp_raw@.to_set(), start, y));
                    self.lemma_conn_within_sym(comp_raw@.to_set(), start, x);
                    self.lemma_conn_within_trans(comp_raw@.to_set(), x, start, y);
                }
            }
            let ghost vis_pre = nodes_visited@;
            let ghost comps_pre = components@;
            let mut k: usize = 0;
            while k < comp.len()
                invariant
                    self.well_formed(),
                    k <= comp@.len(),
                    comp@.no_duplicates(),
                    forall|x: usize| comp@.contains(x) ==> self.spec_has_node(x),
                    forall|x: usize| comp@.contains(x) ==> !vis_pre.contains(x),
                    vis_pre.no_duplicates(),
                    forall|q: int|
                        0 <= q < vis_pre.len() ==> self.spec_has_node(#[trigger] vis_pre[q]),
                    nodes_visited@ == vis_pre + comp@.take(k as int),
                decreases comp@.len() - k,
            {
                nodes_visited.push(comp[k]);
                k += 1;
                proof {
                    assert(comp@.contains(comp@[k - 1]));
                    assert(nodes_visited@ =~= vis_pre + comp@.take(k as int));
                }
            }
            components.push(comp);
            proof {
                assert(nodes_visited@ == vis_pre + comp@.take(comp@.len() as int));
                assert(comp@.take(comp@.len() as int) =~= comp@);
                assert(nodes_visited@.no_duplicates()) by {
                    assert forall|p: int, q: int|
                        0 <= p < q < nodes_visited@.len() implies nodes_visited@[p]
                        != nodes_visited@[q] by {
                        if p < vis_pre.len() && q >= vis_pre.len() {
                            assert(nodes_visited@[p] == vis_pre[p]);
                            assert(vis_pre.contains(vis_pre[p]));
                            assert(nodes_visited@[q] == comp@[q - vis_pre.len()]);
                            assert(comp@.contains(comp@[q - vis_pre.len()]));
                        } else if p >= vis_pre.len() {
                            assert(nodes_visited@[p] == comp@[p - vis_pre.len()]);
                            assert(nodes_visited@[q] == comp@[q - vis_pre.len()]);
                        }
                    }
                }
                assert forall|q: int|
                    0 <= q < nodes_visited@.len() implies self.spec_has_node(
                    #[trigger] nodes_visited@[q]) by {
                    if q < vis_pre.len() {
                        assert(nodes_visited@[q] == vis_pre[q]);
                    } else {
                        assert(nodes_visited@[q] == comp@[q - vis_pre.len()]);
                        assert(comp@.contains(comp@[q - vis_pre.len()]));
                    }
                }
                lemma_unique_len_le(nodes_visited@, self.ids());
                assert(components@ =~= comps_pre.push(comp));
                assert forall|x: usize|
                    nodes_visited@.contains(x) == exists|c: int|
                        0 <= c < components@.len() && (#[trigger] components@[c]@.contains(
                            x,
                        )) by {
                    if nodes_visited@.contains(x) {
                        let w = choose|w: int|
                            0 <= w < nodes_visited@.len() && nodes_visited@[w] == x;
                        if w < vis_pre.len() {
                            assert(vis_pre.contains(x)) by {
                                assert(vis_pre[w] == x);
                            }
                            let c = choose|c: int|
                                0 <= c < comps_pre.len() && (#[trigger] comps_pre[c]@.contains(
                                    x,
                                ));
                            assert(components@[c]@.contains(x));
                        } else {
                            assert(comp@[w - vis_pre.len()] == x);
                            assert(components@[components@.len() - 1]@.contains(x));
                        }
                    }
                    if exists|c: int|
                        0 <= c < components@.len() && (#[trigger] components@[c]@.contains(x)) {
                        let c = choose|c: int|
                            0 <= c < components@.len() && (#[trigger] components@[c]@.contains(
                                x,
                            ));
                        if c < comps_pre.len() {
                            assert(comps_pre[c]@.contains(x));
                            assert(vis_pre.contains(x));
                            let w = choose|w: int|
                                0 <= w < vis_pre.len() && vis_pre[w] == x;
                            assert(nodes_visited@[w] == x);
                        } else {
                            assert(comp@.contains(x));
                            let w = choose|w: int| 0 <= w < comp@.len() && comp@[w] == x;
                            assert(nodes_visited@[vis_pre.len() + w] == x);
                        }
                    }
                }
                assert(nodes_visited@.contains(start)) by {
                    let w = choose|w: int| 0 <= w < comp@.len() && comp@[w] == start;
                    assert(nodes_visited@[vis_pre.len() + w] == start);
                }
                let nc = components@.len() - 1;
                assert(components@[nc] == comp);
                assert forall|c: int|
                    0 <= c < components@.len() implies strictly_sorted(
                    #[trigger] components@[c]@) && components@[c]@.len() >= 1
                    && components@[c]@.no_duplicates() by {
                    if c < nc {
                        assert(components@[c] == comps_pre[c]);
                    }
                }
                assert forall|c: int, u: usize, v: usize|
                    0 <= c < components@.len() && (#[trigger] components@[c]@.contains(u))
                        && #[trigger] self.spec_has_edge(u, v)
                    implies components@[c]@.contains(v) by {
                    if c < nc {
                        assert(components@[c] == comps_pre[c]);
                    }
                }
                assert forall|c: int, x: usize, y: usize|
                    0 <= c < components@.len() && (#[trigger] components@[c]@.contains(x)) && (
                    #[trigger] components@[c]@.contains(y)) implies self.conn_within(
                    components@[c]@.to_set(),
                    x,
                    y,
                ) by {
                    if c < nc {
                        assert(components@[c] == comps_pre[c]);
                    }
                }
                assert forall|c1: int, c2: int, x: usize|
                    0 <= c1 < components@.len() && 0 <= c2 < components@.len() && c1 != c2
                    implies !((#[trigger] components@[c1]@.contains(x)) && (
                    #[trigger] components@[c2]@.contains(x))) by {
                    if c1 < nc && c2 < nc {
                        assert(components@[c1] == comps_pre[c1]);
                        assert(components@[c2] == comps_pre[c2]);
                    } else if c1 == nc && c2 < nc {
                        assert(components@[c2] == comps_pre[c2]);
                    } else if c2 == nc && c1 < nc {
                        assert(components@[c1] == comps_pre[c1]);
                    }
                }
                // the new component starts from its smallest member, above
                // every earlier component's start
                assert forall|x: usize| comp@.contains(x) implies start <= x by {
                    assert(!vis_pre.contains(x)) by {
                        if vis_pre.contains(x) {
                            let cx = choose|cx: int|
                                0 <= cx < comps_pre.len() && (#[trigger] comps_pre[
                                cx]@.contains(x));
                            assert(components@[cx]@.contains(x));
                            assert(components@[nc]@.contains(x));
                        }
                    }
                    assert(self.spec_has_node(x)) by {
                        let w = choose|w: int| 0 <= w < comp@.len() && comp@[w] == x;
                    }
                }
                assert(comp@[0] == start) by {
                    let w = choose|w: int| 0 <= w < comp@.len() && comp@[w] == start;
                    assert(comp@.contains(comp@[0]));
                    assert(start <= comp@[0]);
                    if w > 0 {
                        assert(comp@[0] < comp@[w]);
                    }
                }
                assert forall|c1: int, c2: int|
                    0 <= c1 < c2 < components@.len() implies (#[trigger] components@[c1]@)[0]
                    < (#[trigger] components@[c2]@)[0] by {
                    if c2 < nc {
                        assert(components@[c1] == comps_pre[c1]);
                        assert(components@[c2] == comps_pre[c2]);
                    } else {
                        assert(components@[c1] == comps_pre[c1]);
                        assert(comps_pre[c1]@[0] < start);
                    }
                }
                assert forall|c: int, y: usize|
                    #![trigger components@[c]@, nodes_visited@.contains(y)]
                    0 <= c < components@.len() && self.spec_has_node(y)
                        && !nodes_visited@.contains(y) implies components@[c]@[0] < y by {
                    assert(!vis_pre.contains(y)) by {
                        if vis_pre.contains(y) {
                            let w = choose|w: int|
                                0 <= w < vis_pre.len() && vis_pre[w] == y;
                            assert(nodes_visited@[w] == y);
                        }
                    }
                    if c < nc {
                        assert(components@[c] == comps_pre[c]);
                    } else {
                        assert(start <= y);
                        assert(y != start) by {
                            if y == start {
                                assert(comp@.contains(start));
                                let w = choose|w: int|
                                    0 <= w < comp@.len() && comp@[w] == start;
                                assert(nodes_visited@[vis_pre.len() + w] == start);
                            }
                        }
                    }
                }
            }
            start_opt = self.first_node_not_in_set(&nodes_visited);
        }
        proof {
            assert forall|x: usize| self.spec_has_node(x) implies exists|c: int|
                0 <= c < components@.len() && (#[trigger] components@[c]@.contains(x)) by {
                assert(nodes_visited@.contains(x));
            }
            assert forall|c: int, x: usize|
                0 <= c < components@.len() && (#[trigger] components@[c]@.contains(x))
                implies self.spec_has_node(x) by {
                assert(nodes_visited@.contains(x));
            }
            assert(self.components_spec(components@));
        }
        Ok(components)
    }

    /// Delete the given node, then return the connected components of what
    /// remains.
    pub fn components_after_deleting_node(&mut self, node_id: usize) -> (r: Result<
        Vec<Vec<usize>>,
        GraphError,
    >)
        requires
            old(self).well_formed(),
        ensures
            final(self).well_formed(),
            forall|x: usize|
                final(self).spec_has_node(x) == (old(self).spec_has_node(x) && x != node_id),
            forall|a: usize, b: usize|
                final(self).spec_has_edge(a, b) == (old(self).spec_has_edge(a, b) && a != node_id
                    && b != node_id),
            match r {
                Ok(comps) => final(self).components_spec(comps@),
                Err(_) => false,
            },
    {
        self.delete_node(node_id);
        self.get_connected_components()
    }

    /// The stored node ids are pairwise distinct, and the id list holds
    /// exactly the graph's nodes: the node count is the number of distinct
    /// node ids.
    pub proof fn lemma_ids_distinct(self)
        requires
            self.well_formed(),
        ensures
            self.ids().no_duplicates(),
            forall|x: usize| self.ids().to_set().contains(x) == self.spec_has_node(x),
            self.ids().to_set().len() == self.ids().len(),
            self.ids().to_set().finite(),
    {
        broadcast use vstd::seq_lib::seq_to_set_is_finite;

        assert(self.ids().no_duplicates());
        self.ids().unique_seq_to_set();
    }

    /// Connectivity depends only on which nodes and edges exist: two graphs
    /// with the same node and edge relations are connected together.
    pub proof fn lemma_connected_ext(g1: Graph, g2: Graph)
        requires
            forall|x: usize| g1.spec_has_node(x) == g2.spec_has_node(x),
            forall|a: usize, b: usize|
                #[trigger] g1.spec_has_edge(a, b) == #[trigger] g2.spec_has_edge(a, b),
        ensures
            g1.spec_connected() == g2.spec_connected(),
    {
        assert forall|a: usize, b: usize|
            g1.conn(a, b) == g2.conn(a, b) by {
            if g1.conn(a, b) {
                let p = choose|p: Seq<usize>|
                    g1.is_path(p) && p.first() == a && p.last() == b;
                assert(g2.is_path(p));
                assert(g2.conn(a, b));
            }
            if g2.conn(a, b) {
                let p = choose|p: Seq<usize>|
                    g2.is_path(p) && p.first() == a && p.last() == b;
                assert(g1.is_path(p));
                assert(g1.conn(a, b));
            }
        }
    }
}

} // verus!
