use vstd::prelude::*;
use rand::StdRng;
use crate::query::Node;
use crate::schedule::{Request, Target};

verus! {

#[verifier::external_type_specification]
#[verifier::external_body]
pub struct ExStdRng(StdRng);

/// Relies on rand's `SeedableRng::from_seed` for `StdRng` with a slice of
/// words: a generator whose stream is fixed by the seed.
#[verifier::external_body]
fn seeded(seed: &[usize]) -> (r: StdRng) {
    rand::SeedableRng::from_seed(seed)
}

/// Relies on rand's `Rng::gen_range(0, high)`: a value in `[0, high)`. It
/// panics unless `0 < high`.
#[verifier::external_body]
fn draw_below(rng: &mut StdRng, high: usize) -> (r: usize)
    requires
        0 < high,
    ensures
        r < high,
{
    rand::Rng::gen_range(rng, 0, high)
}

/// A mutation of one relation: a pair inserted and a pair removed, both at the
/// request's nominal time.
#[derive(Clone, Copy, Debug)]
pub struct Mutation {
    pub target: Target,
    pub time_ns: u64,
    pub insert: (Node, Node),
    pub remove: (Node, Node),
}

/// One worker's pseudo-random workload: separate streams for the pairs that
/// the graph and the queries gain and lose, seeded by the worker's index.
pub struct Workload {
    nodes: usize,
    graph_inserts: StdRng,
    graph_removes: StdRng,
    query_inserts: StdRng,
    query_removes: StdRng,
}

impl Workload {
    /// The number of nodes that pairs are drawn from.
    pub closed spec fn nodes(&self) -> usize {
        self.nodes
    }

    pub closed spec fn wf(&self) -> bool {
        self.nodes > 0
    }

    /// The workload of worker `index` over `nodes` nodes; none without nodes.
    pub fn new(nodes: usize, index: usize) -> (r: Option<Workload>)
        ensures
            nodes == 0 <==> r is None,
            r is Some ==> r->Some_0.wf() && r->Some_0.nodes() == nodes,
    {
        if nodes == 0 {
            return None;
        }
        let graph_seed: Vec<usize> = vec![1, 2, 3, index];
        let query_seed: Vec<usize> = vec![1, 2, 4, index];
        Some(Workload {
            nodes,
            graph_inserts: seeded(graph_seed.as_slice()),
            graph_removes: seeded(graph_seed.as_slice()),
            query_inserts: seeded(query_seed.as_slice()),
            query_removes: seeded(query_seed.as_slice()),
        })
    }

    /// The next edge of the graph's insertion stream.
    pub fn random_edge(&mut self) -> (r: (Node, Node))
        requires
            old(self).wf(),
        ensures
            final(self).wf(),
            final(self).nodes() == old(self).nodes(),
            r.0 < old(self).nodes() && r.1 < old(self).nodes(),
    {
        let a = draw_below(&mut self.graph_inserts, self.nodes);
        let b = draw_below(&mut self.graph_inserts, self.nodes);
        (a, b)
    }

    /// The next query of the queries' insertion stream.
    pub fn random_query(&mut self) -> (r: (Node, Node))
        requires
            old(self).wf(),
        ensures
            final(self).wf(),
            final(self).nodes() == old(self).nodes(),
            r.0 < old(self).nodes() && r.1 < old(self).nodes(),
    {
        let a = draw_below(&mut self.query_inserts, self.nodes);
        let b = draw_below(&mut self.query_inserts, self.nodes);
        (a, b)
    }

    /// The mutation that a request makes: a pair from the insertion stream and
    /// one from the removal stream of the relation it targets.
    pub fn mutation(&mut self, request: Request) -> (r: Mutation)
        requires
            old(self).wf(),
        ensures
            final(self).wf(),
            final(self).nodes() == old(self).nodes(),
            r.target == request.target,
            r.time_ns == request.time_ns,
            r.insert.0 < old(self).nodes() && r.insert.1 < old(self).nodes(),
            r.remove.0 < old(self).nodes() && r.remove.1 < old(self).nodes(),
    {
        match request.target {
            Target::Graph => {
                let insert = self.random_edge();
                let a = draw_below(&mut self.graph_removes, self.nodes);
                let b = draw_below(&mut self.graph_removes, self.nodes);
                Mutation { target: Target::Graph, time_ns: request.time_ns, insert, remove: (a, b) }
            },
            Target::Query => {
                let insert = self.random_query();
                let a = draw_below(&mut self.query_removes, self.nodes);
                let b = draw_below(&mut self.query_removes, self.nodes);
                Mutation { target: Target::Query, time_ns: request.time_ns, insert, remove: (a, b) }
            },
        }
    }
}

/// The number of the initial edges that worker `index` of `peers` loads: an
/// even share, the first `edges % peers` workers taking one more.
pub fn worker_edge_count(edges: u64, peers: u64, index: u64) -> (r: u64)
    requires
        peers > 0,
    ensures
        r == edges / peers + if index < edges % peers { 1u64 } else { 0u64 },
{
    let extra: u64 = if index < edges % peers { 1 } else { 0 };
    assert(edges / peers + extra <= edges) by (nonlinear_arith)
        requires peers > 0, extra <= 1, extra == 1 ==> edges % peers > 0;
    edges / peers + extra
}

/// The nodes whose initial state worker `index` of `peers` loads: those
/// equal to `index` modulo `peers`, in increasing order. Each gets itself as
/// its state value.
pub fn worker_state(nodes: usize, peers: usize, index: usize) -> (r: Vec<(Node, Node)>)
    requires
        peers > 0,
    ensures
        forall|i: int, j: int| 0 <= i < j < r@.len() ==> r@[i].0 < r@[j].0,
        forall|p: (Node, Node)| #[trigger] r@.contains(p) <==> p.0 == p.1 && p.0 < nodes && p.0 % peers == index,
{
    let mut r: Vec<(Node, Node)> = Vec::new();
    let mut n: usize = 0;
    while n < nodes
        invariant
            n <= nodes,
            peers > 0,
            forall|i: int, j: int| 0 <= i < j < r@.len() ==> r@[i].0 < r@[j].0,
            forall|i: int| 0 <= i < r@.len() ==> (#[trigger] r@[i]).0 < n,
            forall|p: (Node, Node)| #[trigger] r@.contains(p) <==> p.0 == p.1 && p.0 < n && p.0 % peers == index,
        decreases nodes - n,
    {
        if n % peers == index {
            let ghost old_r = r@;
            assert(forall|p: (Node, Node)| #[trigger] old_r.contains(p) <==> p.0 == p.1 && p.0 < n && p.0 % peers == index);
            r.push((n, n));
            proof {
                assert forall|p: (Node, Node)| #[trigger] r@.contains(p) <==> p.0 == p.1 && p.0 < n + 1 && p.0 % peers == index by {
                    if r@.contains(p) {
                        let k = choose|k: int| 0 <= k < r@.len() && r@[k] == p;
                        if k < old_r.len() {
                            assert(old_r[k] == p);
                            assert(old_r.contains(p));
                        }
                    }
                    if p.0 == p.1 && p.0 < n + 1 && p.0 % peers == index {
                        if p.0 < n {
                            assert(old_r.contains(p));
                            let k = choose|k: int| 0 <= k < old_r.len() && old_r[k] == p;
                            assert(r@[k] == p);
                        } else {
                            assert(r@[old_r.len() as int] == p);
                        }
                    }
                }
            }
        } else {
            proof {
                assert forall|p: (Node, Node)| #[trigger] r@.contains(p) <==> p.0 == p.1 && p.0 < n + 1 && p.0 % peers == index by {
                    if r@.contains(p) {
                        let k = choose|k: int| 0 <= k < r@.len() && r@[k] == p;
                        assert(r@[k].0 < n);
                    }
                }
            }
        }
        n += 1;
    }
    r
}

} // verus!
