use vstd::prelude::*;
use vstd::assert_by_contradiction;

verus! {

/// Every edge's endpoints name a node of a graph with `n` nodes.
pub open spec fn edges_ok(n: nat, edges: Seq<(usize, usize)>) -> bool {
    forall|j: int| 0 <= j < edges.len() ==> (#[trigger] edges[j]).0 < n && edges[j].1 < n
}

/// `rank` witnesses that `edges` has no cycle: it strictly increases along every edge.
pub open spec fn rank_valid(rank: Seq<int>, n: nat, edges: Seq<(usize, usize)>) -> bool {
    &&& rank.len() == n
    &&& forall|j: int|
        0 <= j < edges.len() ==> rank[(#[trigger] edges[j]).0 as int] < rank[edges[j].1 as int]
}

/// A directed graph on `n` nodes is acyclic exactly when some rank strictly
/// increases along every edge.
pub open spec fn acyclic(n: nat, edges: Seq<(usize, usize)>) -> bool {
    exists|rank: Seq<int>| rank_valid(rank, n, edges)
}

/// A concrete topological position for every node: positions increase along edges.
pub open spec fn pos_valid(pos: Seq<usize>, n: nat, edges: Seq<(usize, usize)>) -> bool {
    &&& pos.len() == n
    &&& forall|j: int|
        0 <= j < edges.len() ==> pos[(#[trigger] edges[j]).0 as int] < pos[edges[j].1 as int]
}

/// `order` lists all nodes, and `pos` is its inverse: node `order[k]` sits
/// at position `k`, and node `i` sits at position `pos[i]`.
pub open spec fn order_consistent(order: Seq<usize>, pos: Seq<usize>, n: nat) -> bool {
    &&& order.len() == n
    &&& pos.len() == n
    &&& forall|k: int| 0 <= k < n ==> (#[trigger] order[k]) < n && pos[order[k] as int] == k
    &&& forall|i: int| 0 <= i < n ==> (#[trigger] pos[i]) < n && order[pos[i] as int] == i as usize
}

/// A concrete position assignment is in particular an acyclicity witness.
pub proof fn lemma_pos_valid_acyclic(pos: Seq<usize>, n: nat, edges: Seq<(usize, usize)>)
    requires
        edges_ok(n, edges),
        pos_valid(pos, n, edges),
    ensures
        acyclic(n, edges),
{
    let rank = Seq::new(n, |i: int| pos[i] as int);
    assert forall|j: int| 0 <= j < edges.len() implies rank[(#[trigger] edges[j]).0 as int]
        < rank[edges[j].1 as int] by {
        assert(pos[edges[j].0 as int] < pos[edges[j].1 as int]);
    }
    assert(rank_valid(rank, n, edges));
}

/// Any prefix of an acyclic edge list is acyclic.
pub proof fn lemma_acyclic_prefix(n: nat, edges: Seq<(usize, usize)>, k: int)
    requires
        acyclic(n, edges),
        0 <= k <= edges.len(),
    ensures
        acyclic(n, edges.take(k)),
{
    let rank = choose|rank: Seq<int>| rank_valid(rank, n, edges);
    assert forall|j: int| 0 <= j < edges.take(k).len() implies rank[(#[trigger] edges.take(
        k,
    )[j]).0 as int] < rank[edges.take(k)[j].1 as int] by {
        assert(edges.take(k)[j] == edges[j]);
    }
    assert(rank_valid(rank, n, edges.take(k)));
}

/// Among the indices below `i` that satisfy `f`, some index has minimal rank.
proof fn lemma_min_prefix(f: spec_fn(int) -> bool, rank: Seq<int>, i: int)
    requires
        0 <= i <= rank.len(),
        exists|v: int| 0 <= v < i && #[trigger] f(v),
    ensures
        exists|u: int|
            0 <= u < i && #[trigger] f(u) && (forall|v: int|
                0 <= v < i && #[trigger] f(v) ==> rank[u] <= rank[v]),
    decreases i,
{
    let last = i - 1;
    if exists|v: int| 0 <= v < i - 1 && #[trigger] f(v) {
        lemma_min_prefix(f, rank, i - 1);
        let u = choose|u: int|
            0 <= u < i - 1 && #[trigger] f(u) && (forall|v: int|
                0 <= v < i - 1 && #[trigger] f(v) ==> rank[u] <= rank[v]);
        if f(last) && rank[last] < rank[u] {
            assert forall|v: int| 0 <= v < i && #[trigger] f(v) implies rank[last] <= rank[v] by {
                if v < i - 1 {
                    assert(rank[u] <= rank[v]);
                }
            }
        } else {
            assert forall|v: int| 0 <= v < i && #[trigger] f(v) implies rank[u] <= rank[v] by {}
        }
    } else {
        let w = choose|v: int| 0 <= v < i && #[trigger] f(v);
        assert(w == last);
        assert forall|v: int| 0 <= v < i && #[trigger] f(v) implies rank[last] <= rank[v] by {
            assert(v == last);
        }
    }
}

/// A node is ready when every edge into it comes from an already placed node.
pub open spec fn node_ready(placed: Seq<bool>, edges: Seq<(usize, usize)>, v: int) -> bool {
    forall|j: int|
        0 <= j < edges.len() && (#[trigger] edges[j]).1 as int == v ==> placed[edges[j].0 as int]
}

/// If some node is unplaced and no unplaced node is ready, the graph has a cycle.
proof fn lemma_stuck_not_acyclic(n: nat, edges: Seq<(usize, usize)>, placed: Seq<bool>, w: int)
    requires
        placed.len() == n,
        edges_ok(n, edges),
        0 <= w < n,
        !placed[w],
        forall|v: int| 0 <= v < n && !placed[v] ==> !node_ready(placed, edges, v),
    ensures
        !acyclic(n, edges),
{
    assert_by_contradiction!(!acyclic(n, edges), {
        let rank = choose|rank: Seq<int>| rank_valid(rank, n, edges);
        let f = |v: int| 0 <= v < n && !placed[v];
        assert(f(w));
        lemma_min_prefix(f, rank, n as int);
        let u = choose|u: int|
            0 <= u < n && #[trigger] f(u) && (forall|v: int|
                0 <= v < n as int && #[trigger] f(v) ==> rank[u] <= rank[v]);
        assert(!node_ready(placed, edges, u));
        let j = choose|j: int|
            0 <= j < edges.len() && (#[trigger] edges[j]).1 as int == u && !placed[edges[j].0 as int];
        let a = edges[j].0 as int;
        assert(f(a));
        assert(rank[a] < rank[u]);
        assert(rank[u] <= rank[a]);
    });
}

fn zeroed_vec(n: usize) -> (r: Vec<usize>)
    ensures
        r@.len() == n,
        forall|i: int| 0 <= i < n ==> r@[i] == 0usize,
{
    let mut r: Vec<usize> = Vec::new();
    let mut i: usize = 0;
    while i < n
        invariant
            i <= n,
            r@.len() == i,
            forall|k: int| 0 <= k < i ==> r@[k] == 0usize,
        decreases n - i,
    {
        r.push(0);
        i = i + 1;
    }
    r
}

fn false_vec(n: usize) -> (r: Vec<bool>)
    ensures
        r@.len() == n,
        forall|i: int| 0 <= i < n ==> r@[i] == false,
{
    let mut r: Vec<bool> = Vec::new();
    let mut i: usize = 0;
    while i < n
        invariant
            i <= n,
            r@.len() == i,
            forall|k: int| 0 <= k < i ==> r@[k] == false,
        decreases n - i,
    {
        r.push(false);
        i = i + 1;
    }
    r
}

fn iota_vec(n: usize) -> (r: Vec<usize>)
    ensures
        r@.len() == n,
        forall|i: int| 0 <= i < n ==> r@[i] == i as usize,
{
    let mut r: Vec<usize> = Vec::new();
    let mut i: usize = 0;
    while i < n
        invariant
            i <= n,
            r@.len() == i,
            forall|k: int| 0 <= k < i ==> r@[k] == k as usize,
        decreases n - i,
    {
        r.push(i);
        i = i + 1;
    }
    r
}

/// Whether every edge into `v` comes from a placed node, checked against the edge list.
fn node_ready_exec(placed: &Vec<bool>, edges: &Vec<(usize, usize)>, v: usize) -> (r: bool)
    requires
        edges_ok(placed@.len() as nat, edges@),
    ensures
        r == node_ready(placed@, edges@, v as int),
{
    let mut j: usize = 0;
    while j < edges.len()
        invariant
            j <= edges@.len(),
            edges_ok(placed@.len() as nat, edges@),
            forall|x: int|
                0 <= x < j && (#[trigger] edges@[x]).1 as int == v as int ==> placed@[edges@[x].0 as int],
        decreases edges@.len() - j,
    {
        let e = edges[j];
        if e.1 == v && !placed[e.0] {
            assert(!node_ready(placed@, edges@, v as int)) by {
                assert(edges@[j as int].1 as int == v as int && !placed@[edges@[j as int].0 as int]);
            }
            return false;
        }
        j = j + 1;
    }
    true
}

/// Kahn's algorithm: either a topological order of all `n` nodes (with its
/// inverse position table), or the report that the edge list admits none.
fn kahn(n: usize, edges: &Vec<(usize, usize)>) -> (r: Option<(Vec<usize>, Vec<usize>)>)
    requires
        edges_ok(n as nat, edges@),
    ensures
        match r {
            Some(op) => pos_valid(op.1@, n as nat, edges@) && order_consistent(
                op.0@,
                op.1@,
                n as nat,
            ),
            None => !acyclic(n as nat, edges@),
        },
{
    let mut order: Vec<usize> = Vec::new();
    let mut pos: Vec<usize> = zeroed_vec(n);
    let mut placed: Vec<bool> = false_vec(n);
    let mut unplaced: Vec<usize> = iota_vec(n);

    proof {
        assert forall|v: int| 0 <= v < n implies unplaced@.contains(#[trigger] (v as usize)) by {
            assert(unplaced@[v] == v as usize);
        }
    }

    while unplaced.len() > 0
        invariant
            pos@.len() == n,
            placed@.len() == n,
            edges_ok(n as nat, edges@),
            order@.len() + unplaced@.len() == n,
            forall|u: int|
                0 <= u < unplaced@.len() ==> (#[trigger] unplaced@[u]) < n && !placed@[unplaced@[u] as int],
            forall|u1: int, u2: int|
                0 <= u1 < u2 < unplaced@.len() ==> unplaced@[u1] != unplaced@[u2],
            forall|v: int| 0 <= v < n && !placed@[v] ==> unplaced@.contains(v as usize),
            forall|k: int|
                0 <= k < order@.len() ==> (#[trigger] order@[k]) < n && placed@[order@[k] as int]
                    && pos@[order@[k] as int] == k,
            forall|v: int|
                0 <= v < n && placed@[v] ==> pos@[v] < order@.len() && order@[pos@[v] as int]
                    == v as usize,
            forall|j: int|
                0 <= j < edges@.len() && placed@[(#[trigger] edges@[j]).1 as int] ==> placed@[edges@[j].0 as int]
                    && pos@[edges@[j].0 as int] < pos@[edges@[j].1 as int],
        decreases unplaced@.len(),
    {
        let ghost placed0 = placed@;
        let ghost unplaced0 = unplaced@;

        let mut u: usize = 0;
        let mut found: bool = false;
        while u < unplaced.len()
            invariant_except_break
                found == false,
            invariant
                u <= unplaced@.len(),
                placed@.len() == n,
                edges_ok(n as nat, edges@),
                forall|x: int|
                    0 <= x < unplaced@.len() ==> (#[trigger] unplaced@[x]) < n,
                forall|x: int|
                    0 <= x < u && !found ==> !node_ready(placed@, edges@, unplaced@[x] as int),
                found ==> u < unplaced@.len() && node_ready(placed@, edges@, unplaced@[u as int] as int),
            ensures
                found ==> u < unplaced@.len() && node_ready(placed@, edges@, unplaced@[u as int] as int),
                !found ==> forall|x: int|
                    0 <= x < unplaced@.len() ==> !node_ready(placed@, edges@, unplaced@[x] as int),
            decreases unplaced@.len() - u,
        {
            if node_ready_exec(&placed, edges, unplaced[u]) {
                found = true;
                break ;
            }
            u = u + 1;
        }

        if !found {
            proof {
                let w = unplaced@[0];
                assert(unplaced@.contains(w));
                assert(!placed@[w as int]);
                assert forall|v: int| 0 <= v < n && !placed@[v] implies !node_ready(
                    placed@,
                    edges@,
                    v,
                ) by {
                    assert(unplaced@.contains(v as usize));
                    let x = choose|x: int| 0 <= x < unplaced@.len() && unplaced@[x] == v as usize;
                    assert(!node_ready(placed@, edges@, unplaced@[x] as int));
                }
                lemma_stuck_not_acyclic(n as nat, edges@, placed@, w as int);
            }
            return None;
        }

        let v = unplaced[u];
        let newpos = order.len();
        pos[v] = newpos;
        placed[v] = true;
        order.push(v);
        unplaced.swap_remove(u);

        proof {
            // Every still-unplaced node remains listed.
            assert forall|w: int| 0 <= w < n && !placed@[w] implies unplaced@.contains(w as usize) by {
                assert(unplaced0.contains(w as usize));
                let x = choose|x: int| 0 <= x < unplaced0.len() && unplaced0[x] == w as usize;
                if x == unplaced0.len() - 1 {
                    if u < unplaced0.len() - 1 {
                        assert(unplaced@[u as int] == w as usize);
                    }
                } else if x != u {
                    assert(unplaced@[x] == w as usize);
                }
            }
            // Edges whose target is now placed respect the new positions.
            assert forall|j: int|
                0 <= j < edges@.len() && placed@[(#[trigger] edges@[j]).1 as int] implies placed@[edges@[j].0 as int]
                && pos@[edges@[j].0 as int] < pos@[edges@[j].1 as int] by {
                let a = edges@[j].0 as int;
                let b = edges@[j].1 as int;
                if b == v as int {
                    assert(node_ready(placed0, edges@, v as int));
                    assert(placed0[a]);
                } else {
                    assert(placed0[b]);
                    assert(a != v as int);
                }
            }
        }
    }

    proof {
        assert forall|v: int| 0 <= v < n implies placed@[v] by {
            if !placed@[v] {
                assert(unplaced@.contains(v as usize));
            }
        }
        assert forall|i: int| 0 <= i < n implies (#[trigger] pos@[i]) < n && order@[pos@[i] as int]
            == i as usize by {
            assert(placed@[i]);
        }
    }
    Some((order, pos))
}

/// A graph error: the requested edge would close a cycle.
#[derive(Clone, Copy, Debug, PartialEq, Eq, Structural)]
pub enum GraphError {
    WouldCycle,
}

/// A directed acyclic graph over named nodes.
///
/// `order` and `pos` together carry a topological order of the nodes as part
/// of the representation, so acyclicity is an invariant rather than an
/// after-the-fact check: `add_edge` refuses any edge that would close a cycle.
pub struct Graph {
    pub nodes: Vec<String>,
    pub edges: Vec<(usize, usize)>,
    pub order: Vec<usize>,
    pub pos: Vec<usize>,
}

impl Graph {
    pub open spec fn n(self) -> nat {
        self.nodes@.len()
    }

    /// The node names, as sequences of characters, in insertion order.
    pub open spec fn names(self) -> Seq<Seq<char>> {
        self.nodes@.map_values(|s: String| s@)
    }

    pub open spec fn wf(self) -> bool {
        &&& edges_ok(self.n(), self.edges@)
        &&& pos_valid(self.pos@, self.n(), self.edges@)
        &&& order_consistent(self.order@, self.pos@, self.n())
    }

    pub open spec fn unique_names(self) -> bool {
        forall|i: int, j: int| 0 <= i < j < self.n() ==> self.names()[i] != self.names()[j]
    }

    /// Some edge of the graph goes from a node named `from` to a node named `to`.
    pub open spec fn has_edge_named(self, from: Seq<char>, to: Seq<char>) -> bool {
        exists|j: int|
            0 <= j < self.edges@.len() && self.names()[(#[trigger] self.edges@[j]).0 as int] == from
                && self.names()[self.edges@[j].1 as int] == to
    }

    /// A well-formed graph is acyclic: its position table witnesses it.
    pub proof fn lemma_wf_acyclic(self)
        requires
            self.wf(),
        ensures
            acyclic(self.n(), self.edges@),
    {
        lemma_pos_valid_acyclic(self.pos@, self.n(), self.edges@);
    }

    pub fn new() -> (g: Graph)
        ensures
            g.wf(),
            g.nodes@.len() == 0,
            g.edges@.len() == 0,
    {
        Graph { nodes: Vec::new(), edges: Vec::new(), order: Vec::new(), pos: Vec::new() }
    }

    pub fn node_count(&self) -> (r: usize)
        ensures
            r == self.n(),
    {
        self.nodes.len()
    }

    /// Appends a node; the new node takes the last topological position.
    pub fn add_node(&mut self, name: String) -> (idx: usize)
        requires
            old(self).wf(),
        ensures
            final(self).wf(),
            idx == old(self).n(),
            final(self).nodes@ == old(self).nodes@.push(name),
            final(self).edges@ == old(self).edges@,
            final(self).names() =~= old(self).names().push(name@),
    {
        let idx = self.nodes.len();
        self.nodes.push(name);
        self.pos.push(idx);
        self.order.push(idx);
        idx
    }

    /// The first node carrying `name`, if any.
    pub fn find_node_index(&self, name: &str) -> (r: Option<usize>)
        ensures
            match r {
                Some(i) => i < self.n() && self.names()[i as int] == name@ && (forall|k: int|
                    0 <= k < i ==> self.names()[k] != name@),
                None => forall|k: int| 0 <= k < self.n() ==> self.names()[k] != name@,
            },
            match r {
                Some(i) => find_name_spec(self.names(), name@) == Some(i as int),
                None => find_name_spec(self.names(), name@) is None,
            },
    {
        proof {
            lemma_find_name_spec(self.names(), name@);
        }
        let mut i: usize = 0;
        while i < self.nodes.len()
            invariant
                i <= self.n(),
                forall|k: int| 0 <= k < i ==> self.names()[k] != name@,
            decreases self.n() - i,
        {
            if str_eq(self.nodes[i].as_str(), name) {
                proof {
                    lemma_find_name_spec(self.names(), name@);
                    match find_name_spec(self.names(), name@) {
                        Some(fi) => {
                            if fi < i {
                                assert(self.names()[fi] != name@);
                            }
                            if fi > i {
                                assert(self.names()[i as int] != name@);
                            }
                        },
                        None => {
                            assert(self.names()[i as int] != name@);
                        },
                    }
                }
                return Some(i);
            }
            i = i + 1;
        }
        proof {
            lemma_find_name_spec(self.names(), name@);
            match find_name_spec(self.names(), name@) {
                Some(fi) => {
                    assert(self.names()[fi] != name@);
                },
                None => {},
            }
        }
        None
    }

    /// Adds the edge `from -> to` unless it would close a cycle, in which
    /// case the graph is left unchanged.  The result is `Ok` exactly when the
    /// extended edge list is still acyclic.
    pub fn add_edge(&mut self, from: usize, to: usize) -> (r: Result<(), GraphError>)
        requires
            old(self).wf(),
            from < old(self).n(),
            to < old(self).n(),
        ensures
            final(self).nodes@ == old(self).nodes@,
            match r {
                Ok(_) => final(self).wf() && final(self).edges@ == old(self).edges@.push(
                    (from, to),
                ),
                Err(_) => *final(self) == *old(self) && !acyclic(
                    old(self).n(),
                    old(self).edges@.push((from, to)),
                ),
            },
            (r is Ok) == acyclic(old(self).n(), old(self).edges@.push((from, to))),
    {
        let ghost n = self.n();
        let ghost e2 = self.edges@.push((from, to));
        if from == to {
            proof {
                assert_by_contradiction!(!acyclic(n, e2), {
                    let rank = choose|rank: Seq<int>| rank_valid(rank, n, e2);
                    let j = e2.len() - 1;
                    assert(rank[(e2[j]).0 as int] < rank[e2[j].1 as int]);
                });
            }
            return Err(GraphError::WouldCycle);
        }
        if self.pos[from] < self.pos[to] {
            self.edges.push((from, to));
            proof {
                assert forall|j: int|
                    0 <= j < self.edges@.len() implies self.pos@[(#[trigger] self.edges@[j]).0 as int]
                    < self.pos@[self.edges@[j].1 as int] by {
                    if j < self.edges@.len() - 1 {
                        assert(old(self).edges@[j] == self.edges@[j]);
                    }
                }
                self.lemma_wf_acyclic();
            }
            return Ok(());
        }
        let mut new_edges: Vec<(usize, usize)> = Vec::new();
        let mut j: usize = 0;
        while j < self.edges.len()
            invariant
                j <= self.edges@.len(),
                new_edges@ == self.edges@.take(j as int),
            decreases self.edges@.len() - j,
        {
            let e = self.edges[j];
            new_edges.push(e);
            proof {
                assert(new_edges@ =~= self.edges@.take(j + 1));
            }
            j = j + 1;
        }
        proof {
            assert(new_edges@ =~= self.edges@);
        }
        new_edges.push((from, to));
        match kahn(self.nodes.len(), &new_edges) {
            Some(op) => {
                let (new_order, new_pos) = op;
                self.edges = new_edges;
                self.order = new_order;
                self.pos = new_pos;
                proof {
                    self.lemma_wf_acyclic();
                }
                Ok(())
            },
            None => Err(GraphError::WouldCycle),
        }
    }

    /// The stored topological order: node indices, earliest first.
    pub fn topo_order(&self) -> (r: &Vec<usize>)
        ensures
            r@ == self.order@,
    {
        &self.order
    }

    /// The direct predecessors of node `v`: sources of every edge into `v`,
    /// in edge insertion order.
    pub fn preds_of(&self, v: usize) -> (r: Vec<usize>)
        ensures
            r@ == preds_spec(self.edges@, v),
    {
        let mut r: Vec<usize> = Vec::new();
        let mut j: usize = 0;
        while j < self.edges.len()
            invariant
                j <= self.edges@.len(),
                r@ == preds_spec(self.edges@.take(j as int), v),
            decreases self.edges@.len() - j,
        {
            let e = self.edges[j];
            proof {
                assert(self.edges@.take(j + 1).drop_last() =~= self.edges@.take(j as int));
                assert(self.edges@.take(j + 1).last() == self.edges@[j as int]);
            }
            if e.1 == v {
                r.push(e.0);
            }
            j = j + 1;
        }
        proof {
            assert(self.edges@.take(self.edges@.len() as int) =~= self.edges@);
        }
        r
    }
}

/// The first index carrying `name` in a list of names.
pub open spec fn find_name_spec(names: Seq<Seq<char>>, name: Seq<char>) -> Option<int>
    decreases names.len(),
{
    if names.len() == 0 {
        None
    } else if names[0] == name {
        Some(0int)
    } else {
        match find_name_spec(names.drop_first(), name) {
            Some(i) => Some(i + 1),
            None => None,
        }
    }
}

/// `find_name_spec` returns the first match, and `None` only without a match.
pub proof fn lemma_find_name_spec(names: Seq<Seq<char>>, name: Seq<char>)
    ensures
        match find_name_spec(names, name) {
            Some(i) => 0 <= i < names.len() && names[i] == name && (forall|k: int|
                0 <= k < i ==> names[k] != name),
            None => forall|k: int| 0 <= k < names.len() ==> names[k] != name,
        },
    decreases names.len(),
{
    if names.len() > 0 && names[0] != name {
        lemma_find_name_spec(names.drop_first(), name);
        match find_name_spec(names.drop_first(), name) {
            Some(i) => {
                assert(names.drop_first()[i] == names[i + 1]);
                assert forall|k: int| 0 <= k < i + 1 implies names[k] != name by {
                    if k > 0 {
                        assert(names.drop_first()[k - 1] != name);
                    }
                }
            },
            None => {
                assert forall|k: int| 0 <= k < names.len() implies names[k] != name by {
                    if k > 0 {
                        assert(names.drop_first()[k - 1] != name);
                    }
                }
            },
        }
    }
}

/// The sources of every edge into `v`, in edge order.
pub open spec fn preds_spec(edges: Seq<(usize, usize)>, v: usize) -> Seq<usize>
    decreases edges.len(),
{
    if edges.len() == 0 {
        Seq::empty()
    } else {
        let rest = preds_spec(edges.drop_last(), v);
        if edges.last().1 == v {
            rest.push(edges.last().0)
        } else {
            rest
        }
    }
}

/// `preds_spec` holds exactly the sources of edges into `v`.
pub proof fn lemma_preds_spec_membership(edges: Seq<(usize, usize)>, v: usize, a: usize)
    ensures
        preds_spec(edges, v).contains(a) <==> exists|j: int|
            0 <= j < edges.len() && #[trigger] edges[j] == (a, v),
    decreases edges.len(),
{
    if edges.len() > 0 {
        lemma_preds_spec_membership(edges.drop_last(), v, a);
        let sub = edges.drop_last();
        if preds_spec(edges, v).contains(a) {
            if edges.last() == (a, v) {
                assert(edges[edges.len() - 1] == (a, v));
            } else {
                let p = preds_spec(sub, v);
                if edges.last().1 == v {
                    let x = choose|x: int| 0 <= x < p.push(edges.last().0).len() && p.push(edges.last().0)[x] == a;
                    if x < p.len() {
                        assert(p.contains(a));
                    } else {
                        assert(edges.last().0 == a);
                    }
                } else {
                    assert(p.contains(a));
                }
                if p.contains(a) {
                    let j = choose|j: int| 0 <= j < sub.len() && #[trigger] sub[j] == (a, v);
                    assert(edges[j] == (a, v));
                }
            }
        }
        if exists|j: int| 0 <= j < edges.len() && #[trigger] edges[j] == (a, v) {
            let j = choose|j: int| 0 <= j < edges.len() && #[trigger] edges[j] == (a, v);
            if j == edges.len() - 1 {
                let p = preds_spec(sub, v);
                assert(preds_spec(edges, v) == p.push(a));
                assert(preds_spec(edges, v)[p.len() as int] == a);
            } else {
                assert(sub[j] == (a, v));
                assert(preds_spec(sub, v).contains(a));
                let p = preds_spec(sub, v);
                let x = choose|x: int| 0 <= x < p.len() && p[x] == a;
                if edges.last().1 == v {
                    assert(preds_spec(edges, v)[x] == a);
                } else {
                    assert(preds_spec(edges, v)[x] == a);
                }
            }
        }
    }
}

/// String equality, decided by the characters.  Relies on `str::eq`
/// from the standard library, whose result is equality of the contents.
pub assume_specification[ <str as PartialEq<str>>::eq ](a: &str, b: &str) -> (r: bool)
    ensures
        r == (a@ == b@),
;

/// Whether two string slices hold the same characters.
pub fn str_eq(a: &str, b: &str) -> (r: bool)
    ensures
        r == (a@ == b@),
{
    a.eq(b)
}

} // verus!
