use vstd::prelude::*;

verus! {

/// A node of the graph.
pub type Node = usize;

/// The pairs `(v, p)` for which some key `k` has `(k, p)` on the left and
/// `(k, v)` on the right.
pub open spec fn joined(left: Seq<(Node, Node)>, right: Seq<(Node, Node)>, v: Node, p: Node) -> bool {
    exists|k: Node| #[trigger] left.contains((k, p)) && right.contains((k, v))
}

/// The `a`-th pair on the left and the `b`-th on the right share their key
/// and give the output pair `o`.
pub open spec fn pair_match(left: Seq<(Node, Node)>, right: Seq<(Node, Node)>, a: int, b: int, o: (Node, Node)) -> bool {
    0 <= a < left.len() && 0 <= b < right.len() && left[a].0 == right[b].0 && o == (right[b].1, left[a].1)
}

/// `o` comes from one of the first `lim` pairs on the left.
pub open spec fn produced_before(left: Seq<(Node, Node)>, right: Seq<(Node, Node)>, lim: int, o: (Node, Node)) -> bool {
    exists|a: int, b: int| a < lim && #[trigger] pair_match(left, right, a, b, o)
}

/// For each `(key, value)` on the right whose key is `k`, in order, the pair
/// `(value, p)`.
pub open spec fn matches_of(right: Seq<(Node, Node)>, k: Node, p: Node) -> Seq<(Node, Node)>
    decreases right.len(),
{
    if right.len() == 0 {
        seq![]
    } else {
        let rest = matches_of(right.drop_last(), k, p);
        if right.last().0 == k {
            rest.push((right.last().1, p))
        } else {
            rest
        }
    }
}

/// The output of a join, row for row: for each `(k, p)` on the left, in
/// order, the matches of `k` on the right.
pub open spec fn join_seq(left: Seq<(Node, Node)>, right: Seq<(Node, Node)>) -> Seq<(Node, Node)>
    decreases left.len(),
{
    if left.len() == 0 {
        seq![]
    } else {
        join_seq(left.drop_last(), right) + matches_of(right, left.last().0, left.last().1)
    }
}

/// Joins `(key, payload)` pairs against a key-indexed relation of
/// `(key, value)` pairs and emits `(value, payload)` for every match, one row
/// per matching pair of rows. This evaluates a join on snapshots of its
/// inputs; the running benchmark uses differential dataflow's incremental
/// `join_core`, and this function states what that join computes.
pub fn join_core(left: &Vec<(Node, Node)>, right: &Vec<(Node, Node)>) -> (r: Vec<(Node, Node)>)
    ensures
        forall|v: Node, p: Node| #[trigger] r@.contains((v, p)) <==> joined(left@, right@, v, p),
        r@ == join_seq(left@, right@),
{
    let mut r: Vec<(Node, Node)> = Vec::new();
    let mut i: usize = 0;
    while i < left.len()
        invariant
            i <= left.len(),
            r@ == join_seq(left@.subrange(0, i as int), right@),
            forall|m: int| 0 <= m < r@.len() ==> produced_before(left@, right@, i as int, #[trigger] r@[m]),
            forall|a: int, b: int| 0 <= a < i && 0 <= b < right@.len() && left@[a].0 == right@[b].0
                ==> r@.contains((#[trigger] right@[b].1, #[trigger] left@[a].1)),
        decreases left.len() - i,
    {
        let (k, p) = left[i];
        let mut j: usize = 0;
        while j < right.len()
            invariant
                i < left.len(),
                j <= right.len(),
                (k, p) == left@[i as int],
                r@ == join_seq(left@.subrange(0, i as int), right@) + matches_of(right@.subrange(0, j as int), k, p),
                forall|m: int| 0 <= m < r@.len() ==> produced_before(left@, right@, i + 1, #[trigger] r@[m]),
                forall|a: int, b: int| 0 <= a < i && 0 <= b < right@.len() && left@[a].0 == right@[b].0
                    ==> r@.contains((#[trigger] right@[b].1, #[trigger] left@[a].1)),
                forall|b: int| 0 <= b < j && right@[b].0 == k ==> r@.contains((#[trigger] right@[b].1, p)),
            decreases right.len() - j,
        {
            let (k2, v) = right[j];
            proof {
                assert(right@.subrange(0, j + 1).drop_last() =~= right@.subrange(0, j as int));
                assert(right@.subrange(0, j + 1).last() == (k2, v));
            }
            if k2 == k {
                let ghost old_r = r@;
                r.push((v, p));
                proof {
                    assert(r@[old_r.len() as int] == (v, p));
                    assert forall|o: (Node, Node)| old_r.contains(o) implies r@.contains(o) by {
                        let idx = choose|idx: int| 0 <= idx < old_r.len() && old_r[idx] == o;
                        assert(r@[idx] == o);
                    }
                    assert(pair_match(left@, right@, i as int, j as int, r@[old_r.len() as int]));
                    assert forall|m: int| 0 <= m < r@.len() implies produced_before(left@, right@, i + 1, #[trigger] r@[m]) by {
                        if m < old_r.len() {
                            assert(r@[m] == old_r[m]);
                        }
                    }
                    assert(r@ =~= join_seq(left@.subrange(0, i as int), right@) + matches_of(right@.subrange(0, j + 1), k, p));
                }
            }
            j += 1;
        }
        proof {
            assert forall|b: int| 0 <= b < right@.len() && right@[b].0 == left@[i as int].0
                implies r@.contains((#[trigger] right@[b].1, left@[i as int].1)) by {}
            assert(right@.subrange(0, right@.len() as int) =~= right@);
            assert(left@.subrange(0, i + 1).drop_last() =~= left@.subrange(0, i as int));
            assert(left@.subrange(0, i + 1).last() == (k, p));
        }
        i += 1;
    }
    proof {
        assert(left@.subrange(0, left@.len() as int) =~= left@);
        assert forall|v: Node, p: Node| #[trigger] r@.contains((v, p)) <==> joined(left@, right@, v, p) by {
            let o = (v, p);
            if r@.contains(o) {
                let m = choose|m: int| 0 <= m < r@.len() && r@[m] == o;
                assert(produced_before(left@, right@, left@.len() as int, r@[m]));
                let (a, b) = choose|a: int, b: int|
                    a < left@.len() && #[trigger] pair_match(left@, right@, a, b, r@[m]);
                assert(left@[a] == (left@[a].0, o.1));
                assert(right@[b] == (left@[a].0, o.0));
                assert(left@.contains((left@[a].0, o.1)));
            }
            if joined(left@, right@, v, p) {
                let k = choose|k: Node| #[trigger] left@.contains((k, o.1)) && right@.contains((k, o.0));
                let a = choose|a: int| 0 <= a < left@.len() && left@[a] == (k, o.1);
                let b = choose|b: int| 0 <= b < right@.len() && right@[b] == (k, o.0);
                assert(r@.contains((right@[b].1, left@[a].1)));
            }
        }
    }
    r
}

/// `x` and `y` are joined by an edge, in either direction.
pub open spec fn adjacent(edges: Seq<(Node, Node)>, x: Node, y: Node) -> bool {
    edges.contains((x, y)) || edges.contains((y, x))
}

/// Some query asks about node `a`.
pub open spec fn queried(queries: Seq<(Node, Node)>, a: Node) -> bool {
    exists|b: Node| #[trigger] queries.contains((a, b))
}

/// The undirected adjacency relation: every edge in both directions.
pub fn undirected(edges: &Vec<(Node, Node)>) -> (r: Vec<(Node, Node)>)
    ensures
        forall|p: (Node, Node)| #[trigger] r@.contains(p) <==> adjacent(edges@, p.0, p.1),
        r@ == both_ways(edges@),
{
    let mut r: Vec<(Node, Node)> = Vec::new();
    let mut i: usize = 0;
    while i < edges.len()
        invariant
            i <= edges.len(),
            r@.len() == 2 * i,
            forall|m: int| 0 <= m < i ==> #[trigger] r@[2 * m] == edges@[m],
            forall|m: int| 0 <= m < i ==> #[trigger] r@[2 * m + 1] == (edges@[m].1, edges@[m].0),
        decreases edges.len() - i,
    {
        let (x, y) = edges[i];
        r.push((x, y));
        r.push((y, x));
        i += 1;
    }
    proof {
        assert forall|k: int| 0 <= k < r@.len() implies #[trigger] r@[k] == both_ways(edges@)[k] by {
            let m = k / 2;
            if k % 2 == 0 {
                assert(k == 2 * m);
            } else {
                assert(k == 2 * m + 1);
            }
        }
        assert(r@ =~= both_ways(edges@));
        assert forall|p: (Node, Node)| #[trigger] r@.contains(p) <==> adjacent(edges@, p.0, p.1) by {
            if r@.contains(p) {
                let k = choose|k: int| 0 <= k < r@.len() && r@[k] == p;
                let m = k / 2;
                if k % 2 == 0 {
                    assert(r@[2 * m] == edges@[m]);
                    assert(edges@.contains((p.0, p.1)));
                } else {
                    assert(k == 2 * m + 1);
                    assert(r@[2 * m + 1] == (edges@[m].1, edges@[m].0));
                    assert(edges@[m] == (p.1, p.0));
                    assert(edges@.contains((p.1, p.0)));
                }
            }
            if edges@.contains((p.0, p.1)) {
                let m = choose|m: int| 0 <= m < edges@.len() && edges@[m] == (p.0, p.1);
                assert(r@[2 * m] == p);
            }
            if edges@.contains((p.1, p.0)) {
                let m = choose|m: int| 0 <= m < edges@.len() && edges@[m] == (p.1, p.0);
                assert(r@[2 * m + 1] == p);
            }
        }
    }
    r
}

/// Projects each query to its first node and keys it by itself.
pub fn key_by_self(queries: &Vec<(Node, Node)>) -> (r: Vec<(Node, Node)>)
    ensures
        forall|k: Node, p: Node| #[trigger] r@.contains((k, p)) <==> k == p && queried(queries@, k),
        r@.len() == queries@.len(),
        forall|m: int| 0 <= m < queries@.len() ==> #[trigger] r@[m] == (queries@[m].0, queries@[m].0),
{
    let mut r: Vec<(Node, Node)> = Vec::new();
    let mut i: usize = 0;
    while i < queries.len()
        invariant
            i <= queries.len(),
            r@.len() == i,
            forall|m: int| 0 <= m < i ==> #[trigger] r@[m] == (queries@[m].0, queries@[m].0),
        decreases queries.len() - i,
    {
        let (a, _b) = queries[i];
        r.push((a, a));
        i += 1;
    }
    proof {
        assert forall|k: Node, p: Node| #[trigger] r@.contains((k, p)) <==> k == p && queried(queries@, k) by {
            if r@.contains((k, p)) {
                let m = choose|m: int| 0 <= m < r@.len() && r@[m] == (k, p);
                assert(queries@.contains((k, queries@[m].1)));
            }
            if k == p && queried(queries@, k) {
                let b = choose|b: Node| #[trigger] queries@.contains((k, b));
                let m = choose|m: int| 0 <= m < queries@.len() && queries@[m] == (k, b);
                assert(r@[m] == (k, p));
            }
        }
    }
    r
}

/// Swaps the two components of every pair.
pub fn swap_pairs(v: &Vec<(Node, Node)>) -> (r: Vec<(Node, Node)>)
    ensures
        r@.len() == v@.len(),
        forall|m: int| 0 <= m < v@.len() ==> #[trigger] r@[m] == (v@[m].1, v@[m].0),
        forall|p: (Node, Node)| #[trigger] r@.contains(p) <==> v@.contains((p.1, p.0)),
{
    let mut r: Vec<(Node, Node)> = Vec::new();
    let mut i: usize = 0;
    while i < v.len()
        invariant
            i <= v.len(),
            r@.len() == i,
            forall|m: int| 0 <= m < i ==> #[trigger] r@[m] == (v@[m].1, v@[m].0),
        decreases v.len() - i,
    {
        let (x, y) = v[i];
        r.push((y, x));
        i += 1;
    }
    proof {
        assert forall|p: (Node, Node)| #[trigger] r@.contains(p) <==> v@.contains((p.1, p.0)) by {
            if r@.contains(p) {
                let m = choose|m: int| 0 <= m < r@.len() && r@[m] == p;
                assert(v@[m] == (p.1, p.0));
            }
            if v@.contains((p.1, p.0)) {
                let m = choose|m: int| 0 <= m < v@.len() && v@[m] == (p.1, p.0);
                assert(r@[m] == p);
            }
        }
    }
    r
}

/// The number of times `o` occurs in `s`.
pub open spec fn occ(s: Seq<(Node, Node)>, o: (Node, Node)) -> int
    decreases s.len(),
{
    if s.len() == 0 {
        0
    } else {
        occ(s.drop_last(), o) + if s.last() == o { 1int } else { 0int }
    }
}

/// The sum of `g(k)` over the pairs `(k, p)` of `left`, one term per pair.
pub open spec fn weigh_left(left: Seq<(Node, Node)>, p: Node, g: spec_fn(Node) -> int) -> int
    decreases left.len(),
{
    if left.len() == 0 {
        0
    } else {
        weigh_left(left.drop_last(), p, g) + if left.last().1 == p { g(left.last().0) } else { 0int }
    }
}

/// The sum of `g(v)` over the pairs `(k, v)` of `right`, one term per pair.
pub open spec fn weigh_right(right: Seq<(Node, Node)>, k: Node, g: spec_fn(Node) -> int) -> int
    decreases right.len(),
{
    if right.len() == 0 {
        0
    } else {
        weigh_right(right.drop_last(), k, g) + if right.last().0 == k { g(right.last().1) } else { 0int }
    }
}

/// The number of queries whose first node is `a`.
pub open spec fn query_count(queries: Seq<(Node, Node)>, a: Node) -> int
    decreases queries.len(),
{
    if queries.len() == 0 {
        0
    } else {
        query_count(queries.drop_last(), a) + if queries.last().0 == a { 1int } else { 0int }
    }
}

/// Every edge of `edges` followed by its reverse: the adjacency relation that
/// the lookups walk, one row per edge and direction.
pub open spec fn both_ways(edges: Seq<(Node, Node)>) -> Seq<(Node, Node)> {
    Seq::new(2 * edges.len(), |i: int| if i % 2 == 0 { edges[i / 2] } else { (edges[i / 2].1, edges[i / 2].0) })
}

proof fn lemma_occ_concat(a: Seq<(Node, Node)>, b: Seq<(Node, Node)>, o: (Node, Node))
    ensures
        occ(a + b, o) == occ(a, o) + occ(b, o),
    decreases b.len(),
{
    if b.len() == 0 {
        assert(a + b =~= a);
    } else {
        lemma_occ_concat(a, b.drop_last(), o);
        assert((a + b).drop_last() =~= a + b.drop_last());
        assert((a + b).last() == b.last());
    }
}

proof fn lemma_weigh_left_concat(a: Seq<(Node, Node)>, b: Seq<(Node, Node)>, p: Node, g: spec_fn(Node) -> int)
    ensures
        weigh_left(a + b, p, g) == weigh_left(a, p, g) + weigh_left(b, p, g),
    decreases b.len(),
{
    if b.len() == 0 {
        assert(a + b =~= a);
    } else {
        lemma_weigh_left_concat(a, b.drop_last(), p, g);
        assert((a + b).drop_last() =~= a + b.drop_last());
        assert((a + b).last() == b.last());
    }
}

proof fn lemma_occ_matches(right: Seq<(Node, Node)>, k: Node, p: Node, o: (Node, Node))
    ensures
        occ(matches_of(right, k, p), o) == if o.1 == p { occ(right, (k, o.0)) } else { 0 },
    decreases right.len(),
{
    if right.len() > 0 {
        lemma_occ_matches(right.drop_last(), k, p, o);
        let rest = matches_of(right.drop_last(), k, p);
        if right.last().0 == k {
            assert(rest.push((right.last().1, p)).drop_last() =~= rest);
        }
    }
}

proof fn lemma_weigh_matches(right: Seq<(Node, Node)>, k: Node, q: Node, p: Node, g: spec_fn(Node) -> int)
    ensures
        weigh_left(matches_of(right, k, q), p, g) == if q == p { weigh_right(right, k, g) } else { 0 },
    decreases right.len(),
{
    if right.len() > 0 {
        lemma_weigh_matches(right.drop_last(), k, q, p, g);
        let rest = matches_of(right.drop_last(), k, q);
        if right.last().0 == k {
            assert(rest.push((right.last().1, q)).drop_last() =~= rest);
        }
    }
}

/// A row of a join's output occurs once for each left row and matching right
/// row that make it.
pub proof fn lemma_occ_join(left: Seq<(Node, Node)>, right: Seq<(Node, Node)>, o: (Node, Node), g: spec_fn(Node) -> int)
    requires
        forall|k: Node| #[trigger] g(k) == occ(right, (k, o.0)),
    ensures
        occ(join_seq(left, right), o) == weigh_left(left, o.1, g),
    decreases left.len(),
{
    if left.len() > 0 {
        lemma_occ_join(left.drop_last(), right, o, g);
        lemma_occ_concat(join_seq(left.drop_last(), right), matches_of(right, left.last().0, left.last().1), o);
        lemma_occ_matches(right, left.last().0, left.last().1, o);
    }
}

/// Weighing a join's output row by row is weighing each left row by its
/// matches on the right.
pub proof fn lemma_weigh_join(
    left: Seq<(Node, Node)>,
    right: Seq<(Node, Node)>,
    p: Node,
    g: spec_fn(Node) -> int,
    h: spec_fn(Node) -> int,
)
    requires
        forall|k: Node| #[trigger] h(k) == weigh_right(right, k, g),
    ensures
        weigh_left(join_seq(left, right), p, g) == weigh_left(left, p, h),
    decreases left.len(),
{
    if left.len() > 0 {
        lemma_weigh_join(left.drop_last(), right, p, g, h);
        lemma_weigh_left_concat(join_seq(left.drop_last(), right), matches_of(right, left.last().0, left.last().1), p, g);
        lemma_weigh_matches(right, left.last().0, left.last().1, p, g);
    }
}

/// Weighing the self-keyed queries picks out the queries on `a`.
proof fn lemma_weigh_keys(keys: Seq<(Node, Node)>, queries: Seq<(Node, Node)>, a: Node, g: spec_fn(Node) -> int)
    requires
        keys.len() == queries.len(),
        forall|m: int| 0 <= m < keys.len() ==> #[trigger] keys[m] == (queries[m].0, queries[m].0),
    ensures
        weigh_left(keys, a, g) == query_count(queries, a) * g(a),
    decreases keys.len(),
{
    if keys.len() > 0 {
        let k2 = keys.drop_last();
        let q2 = queries.drop_last();
        assert forall|m: int| 0 <= m < k2.len() implies #[trigger] k2[m] == (q2[m].0, q2[m].0) by {
            assert(keys[m] == (queries[m].0, queries[m].0));
        }
        lemma_weigh_keys(k2, q2, a, g);
        assert(keys.last() == (queries.last().0, queries.last().0));
        let c = query_count(q2, a);
        let x = g(a);
        assert(c * x + x == (c + 1) * x) by (nonlinear_arith);
    }
}

/// Swapping every pair moves each row's count to the swapped row.
proof fn lemma_occ_swap(r: Seq<(Node, Node)>, v: Seq<(Node, Node)>, o: (Node, Node))
    requires
        r.len() == v.len(),
        forall|m: int| 0 <= m < v.len() ==> #[trigger] r[m] == (v[m].1, v[m].0),
    ensures
        occ(r, o) == occ(v, (o.1, o.0)),
    decreases r.len(),
{
    if r.len() > 0 {
        let r2 = r.drop_last();
        let v2 = v.drop_last();
        assert forall|m: int| 0 <= m < v2.len() implies #[trigger] r2[m] == (v2[m].1, v2[m].0) by {
            assert(r[m] == (v[m].1, v[m].0));
        }
        lemma_occ_swap(r2, v2, o);
        assert(r.last() == (v.last().1, v.last().0));
    }
}

/// The answer to a point lookup: the state of a queried node.
pub open spec fn point_answer(queries: Seq<(Node, Node)>, state: Seq<(Node, Node)>, o: (Node, Node)) -> bool {
    queried(queries, o.0) && state.contains(o)
}

/// The answer to a one-hop lookup: the state of a neighbour of a queried node.
pub open spec fn one_hop_answer(
    queries: Seq<(Node, Node)>,
    edges: Seq<(Node, Node)>,
    state: Seq<(Node, Node)>,
    o: (Node, Node),
) -> bool {
    queried(queries, o.0) && exists|n: Node| #[trigger] adjacent(edges, o.0, n) && state.contains((n, o.1))
}

/// The answer to a two-hop lookup: the state of a neighbour of a neighbour of
/// a queried node.
pub open spec fn two_hop_answer(
    queries: Seq<(Node, Node)>,
    edges: Seq<(Node, Node)>,
    state: Seq<(Node, Node)>,
    o: (Node, Node),
) -> bool {
    queried(queries, o.0) && exists|n1: Node, n2: Node|
        #[trigger] adjacent(edges, o.0, n1) && #[trigger] adjacent(edges, n1, n2) && state.contains((n2, o.1))
}

/// Point lookups: for each query `(a, _)`, the pairs `(a, v)` with `(a, v)` in
/// the state relation.
pub fn point_lookup(queries: &Vec<(Node, Node)>, state: &Vec<(Node, Node)>) -> (r: Vec<(Node, Node)>)
    ensures
        forall|o: (Node, Node)| r@.contains(o) <==> point_answer(queries@, state@, o),
        forall|a: Node, v: Node| #[trigger] occ(r@, (a, v)) == query_count(queries@, a) * occ(state@, (a, v)),
{
    let keys = key_by_self(queries);
    let found = join_core(&keys, state);
    let r = swap_pairs(&found);
    proof {
        assert forall|o: (Node, Node)| r@.contains(o) <==> point_answer(queries@, state@, o) by {
            assert(r@.contains(o) <==> found@.contains((o.1, o.0)));
            if found@.contains((o.1, o.0)) {
                let k = choose|k: Node| #[trigger] keys@.contains((k, o.0)) && state@.contains((k, o.1));
            }
            if point_answer(queries@, state@, o) {
                assert(keys@.contains((o.0, o.0)));
                assert(joined(keys@, state@, o.1, o.0));
            }
        }
    }
    proof {
        assert forall|a: Node, v: Node| #[trigger] occ(r@, (a, v)) == query_count(queries@, a) * occ(state@, (a, v)) by {
            let g = |k: Node| occ(state@, (k, v));
            lemma_occ_swap(r@, found@, (a, v));
            lemma_occ_join(keys@, state@, (v, a), g);
            lemma_weigh_keys(keys@, queries@, a, g);
        }
    }
    r
}

/// One-hop lookups: for each query `(a, _)` and each neighbour `n` of `a` in
/// the undirected graph, the pairs `(a, v)` with `(n, v)` in the state.
pub fn one_hop(queries: &Vec<(Node, Node)>, edges: &Vec<(Node, Node)>, state: &Vec<(Node, Node)>) -> (r: Vec<(Node, Node)>)
    ensures
        forall|o: (Node, Node)| r@.contains(o) <==> one_hop_answer(queries@, edges@, state@, o),
        forall|a: Node, v: Node| #[trigger] occ(r@, (a, v)) == query_count(queries@, a)
            * weigh_right(both_ways(edges@), a, |n: Node| occ(state@, (n, v))),
{
    let adj = undirected(edges);
    let keys = key_by_self(queries);
    let friends = join_core(&keys, &adj);
    let found = join_core(&friends, state);
    let r = swap_pairs(&found);
    proof {
        assert forall|o: (Node, Node)| r@.contains(o) <==> one_hop_answer(queries@, edges@, state@, o) by {
            assert(r@.contains(o) <==> found@.contains((o.1, o.0)));
            if found@.contains((o.1, o.0)) {
                let n = choose|n: Node| #[trigger] friends@.contains((n, o.0)) && state@.contains((n, o.1));
                let k = choose|k: Node| #[trigger] keys@.contains((k, o.0)) && adj@.contains((k, n));
                assert(adj@.contains((o.0, n)));
                assert(adjacent(edges@, o.0, n));
            }
            if one_hop_answer(queries@, edges@, state@, o) {
                let n = choose|n: Node| #[trigger] adjacent(edges@, o.0, n) && state@.contains((n, o.1));
                assert(keys@.contains((o.0, o.0)));
                assert(adj@.contains((o.0, n)));
                assert(joined(keys@, adj@, n, o.0));
                assert(friends@.contains((n, o.0)));
                assert(joined(friends@, state@, o.1, o.0));
            }
        }
    }
    proof {
        assert forall|a: Node, v: Node| #[trigger] occ(r@, (a, v)) == query_count(queries@, a)
            * weigh_right(both_ways(edges@), a, |n: Node| occ(state@, (n, v))) by {
            let g = |n: Node| occ(state@, (n, v));
            let h = |k: Node| weigh_right(adj@, k, g);
            lemma_occ_swap(r@, found@, (a, v));
            lemma_occ_join(friends@, state@, (v, a), g);
            lemma_weigh_join(keys@, adj@, a, g, h);
            lemma_weigh_keys(keys@, queries@, a, h);
        }
    }
    r
}

/// Two-hop lookups: for each query `(a, _)`, each neighbour `n1` of `a` and
/// each neighbour `n2` of `n1`, the pairs `(a, v)` with `(n2, v)` in the state.
pub fn two_hop(queries: &Vec<(Node, Node)>, edges: &Vec<(Node, Node)>, state: &Vec<(Node, Node)>) -> (r: Vec<(Node, Node)>)
    ensures
        forall|o: (Node, Node)| r@.contains(o) <==> two_hop_answer(queries@, edges@, state@, o),
        forall|a: Node, v: Node| #[trigger] occ(r@, (a, v)) == query_count(queries@, a)
            * weigh_right(both_ways(edges@), a, |n1: Node| weigh_right(both_ways(edges@), n1, |n2: Node| occ(state@, (n2, v)))),
{
    let adj = undirected(edges);
    let keys = key_by_self(queries);
    let friends = join_core(&keys, &adj);
    let friends2 = join_core(&friends, &adj);
    let found = join_core(&friends2, state);
    let r = swap_pairs(&found);
    proof {
        assert forall|o: (Node, Node)| r@.contains(o) <==> two_hop_answer(queries@, edges@, state@, o) by {
            assert(r@.contains(o) <==> found@.contains((o.1, o.0)));
            if found@.contains((o.1, o.0)) {
                let n2 = choose|n: Node| #[trigger] friends2@.contains((n, o.0)) && state@.contains((n, o.1));
                let n1 = choose|k: Node| #[trigger] friends@.contains((k, o.0)) && adj@.contains((k, n2));
                let k = choose|k: Node| #[trigger] keys@.contains((k, o.0)) && adj@.contains((k, n1));
                assert(adj@.contains((o.0, n1)));
                assert(adjacent(edges@, o.0, n1));
                assert(adjacent(edges@, n1, n2));
            }
            if two_hop_answer(queries@, edges@, state@, o) {
                let (n1, n2) = choose|n1: Node, n2: Node|
                    #[trigger] adjacent(edges@, o.0, n1) && #[trigger] adjacent(edges@, n1, n2) && state@.contains((n2, o.1));
                assert(keys@.contains((o.0, o.0)));
                assert(adj@.contains((o.0, n1)));
                assert(adj@.contains((n1, n2)));
                assert(joined(keys@, adj@, n1, o.0));
                assert(friends@.contains((n1, o.0)));
                assert(joined(friends@, adj@, n2, o.0));
                assert(friends2@.contains((n2, o.0)));
                assert(joined(friends2@, state@, o.1, o.0));
            }
        }
    }
    proof {
        assert forall|a: Node, v: Node| #[trigger] occ(r@, (a, v)) == query_count(queries@, a)
            * weigh_right(both_ways(edges@), a, |n1: Node| weigh_right(both_ways(edges@), n1, |n2: Node| occ(state@, (n2, v)))) by {
            let g = |n2: Node| occ(state@, (n2, v));
            let h = |n1: Node| weigh_right(adj@, n1, g);
            let h2 = |k: Node| weigh_right(adj@, k, h);
            lemma_occ_swap(r@, found@, (a, v));
            lemma_occ_join(friends2@, state@, (v, a), g);
            lemma_weigh_join(friends@, adj@, a, g, h);
            lemma_weigh_join(keys@, adj@, a, h, h2);
            lemma_weigh_keys(keys@, queries@, a, h2);
        }
    }
    r
}

/// Consecutive nodes of `p` are adjacent.
pub open spec fn is_walk(edges: Seq<(Node, Node)>, p: Seq<Node>) -> bool {
    p.len() >= 1 && forall|i: int| 0 <= i < p.len() - 1 ==> adjacent(edges, #[trigger] p[i], p[i + 1])
}

/// There is a walk of exactly `k` steps from `x` to `y` in the undirected graph.
pub open spec fn walk(edges: Seq<(Node, Node)>, x: Node, y: Node, k: int) -> bool {
    exists|p: Seq<Node>| #[trigger] is_walk(edges, p) && p.len() == k + 1 && p[0] == x && p[k] == y
}

/// The most hops a shortest-path query explores.
pub const MAX_HOPS: u32 = 4;

/// `d` is the length of a shortest path from `s` to `t`, and at most four.
pub open spec fn bounded_distance(edges: Seq<(Node, Node)>, s: Node, t: Node, d: int) -> bool {
    0 <= d <= MAX_HOPS && walk(edges, s, t, d)
        && forall|k: int| 0 <= k < d ==> !#[trigger] walk(edges, s, t, k)
}

/// Every node reaches itself in no steps, and only itself.
pub proof fn lemma_walk_zero(edges: Seq<(Node, Node)>, x: Node, y: Node)
    ensures
        walk(edges, x, y, 0) <==> x == y,
{
    if x == y {
        let p = seq![x];
        assert(is_walk(edges, p));
    }
}

/// A walk followed by one more edge is a walk one step longer, and every walk
/// of `k + 1` steps arises so.
pub proof fn lemma_walk_last(edges: Seq<(Node, Node)>, x: Node, y: Node, k: int)
    requires
        0 <= k,
    ensures
        walk(edges, x, y, k + 1) <==> exists|z: Node| #[trigger] walk(edges, x, z, k) && adjacent(edges, z, y),
{
    if walk(edges, x, y, k + 1) {
        let p = choose|p: Seq<Node>| #[trigger] is_walk(edges, p) && p.len() == k + 2 && p[0] == x && p[k + 1] == y;
        let q = p.drop_last();
        assert(is_walk(edges, q));
        assert(adjacent(edges, p[k], p[k + 1]));
        assert(walk(edges, x, p[k], k));
    }
    if exists|z: Node| #[trigger] walk(edges, x, z, k) && adjacent(edges, z, y) {
        let z = choose|z: Node| #[trigger] walk(edges, x, z, k) && adjacent(edges, z, y);
        let q = choose|q: Seq<Node>| #[trigger] is_walk(edges, q) && q.len() == k + 1 && q[0] == x && q[k] == z;
        let p = q.push(y);
        assert forall|i: int| 0 <= i < p.len() - 1 implies adjacent(edges, #[trigger] p[i], p[i + 1]) by {
            if i < k {
                assert(adjacent(edges, q[i], q[i + 1]));
            }
        }
        assert(is_walk(edges, p));
    }
}

/// Walks in the undirected graph can be read backwards.
pub proof fn lemma_walk_reverse(edges: Seq<(Node, Node)>, x: Node, y: Node, k: int)
    requires
        walk(edges, x, y, k),
    ensures
        walk(edges, y, x, k),
{
    let p = choose|p: Seq<Node>| #[trigger] is_walk(edges, p) && p.len() == k + 1 && p[0] == x && p[k] == y;
    let q = Seq::new(p.len(), |i: int| p[k - i]);
    assert forall|i: int| 0 <= i < q.len() - 1 implies adjacent(edges, #[trigger] q[i], q[i + 1]) by {
        assert(adjacent(edges, p[k - i - 1], p[k - i - 1 + 1]));
    }
    assert(is_walk(edges, q));
}

/// Two walks that meet end to end make one walk.
pub proof fn lemma_walk_concat(edges: Seq<(Node, Node)>, x: Node, m: Node, y: Node, a: int, b: int)
    requires
        walk(edges, x, m, a),
        walk(edges, m, y, b),
    ensures
        walk(edges, x, y, a + b),
{
    let head = choose|p: Seq<Node>| #[trigger] is_walk(edges, p) && p.len() == a + 1 && p[0] == x && p[a] == m;
    let tail = choose|p: Seq<Node>| #[trigger] is_walk(edges, p) && p.len() == b + 1 && p[0] == m && p[b] == y;
    let q = head.subrange(0, a) + tail;
    assert forall|i: int| 0 <= i < q.len() - 1 implies adjacent(edges, #[trigger] q[i], q[i + 1]) by {
        if i < a - 1 {
            assert(adjacent(edges, head[i], head[i + 1]));
        } else if i == a - 1 {
            assert(adjacent(edges, head[i], head[i + 1]));
        } else {
            assert(adjacent(edges, tail[i - a], tail[i - a + 1]));
        }
    }
    assert(is_walk(edges, q));
    assert(q[0] == x);
    assert(q[a + b] == y);
}

/// A walk splits at any step into two walks.
pub proof fn lemma_walk_split(edges: Seq<(Node, Node)>, x: Node, y: Node, a: int, b: int)
    requires
        0 <= a,
        0 <= b,
        walk(edges, x, y, a + b),
    ensures
        exists|m: Node| #[trigger] walk(edges, x, m, a) && walk(edges, m, y, b),
{
    let p = choose|p: Seq<Node>| #[trigger] is_walk(edges, p) && p.len() == a + b + 1 && p[0] == x && p[a + b] == y;
    let head = p.subrange(0, a + 1);
    let tail = p.subrange(a, a + b + 1);
    assert forall|i: int| 0 <= i < head.len() - 1 implies adjacent(edges, #[trigger] head[i], head[i + 1]) by {
        assert(adjacent(edges, p[i], p[i + 1]));
    }
    assert forall|i: int| 0 <= i < tail.len() - 1 implies adjacent(edges, #[trigger] tail[i], tail[i + 1]) by {
        assert(adjacent(edges, p[a + i], p[a + i + 1]));
    }
    assert(is_walk(edges, head));
    assert(is_walk(edges, tail));
    assert(walk(edges, x, p[a], a));
    assert(walk(edges, p[a], y, b));
}

/// Expanding a level of `(node, root)` pairs by one hop of the adjacency
/// relation gives the next level.
proof fn lemma_next_level(
    edges: Seq<(Node, Node)>,
    adj: Seq<(Node, Node)>,
    roots: Seq<(Node, Node)>,
    cur: Seq<(Node, Node)>,
    next: Seq<(Node, Node)>,
    k: int,
)
    requires
        0 <= k,
        forall|p: (Node, Node)| #[trigger] adj.contains(p) <==> adjacent(edges, p.0, p.1),
        forall|m: Node, r: Node| #[trigger] cur.contains((m, r)) <==> queried(roots, r) && walk(edges, r, m, k),
        forall|v: Node, p: Node| #[trigger] next.contains((v, p)) <==> joined(cur, adj, v, p),
    ensures
        forall|m: Node, r: Node| #[trigger] next.contains((m, r)) <==> queried(roots, r) && walk(edges, r, m, k + 1),
{
    assert forall|m: Node, r: Node| #[trigger] next.contains((m, r)) <==> queried(roots, r) && walk(edges, r, m, k + 1) by {
        lemma_walk_last(edges, r, m, k);
        if next.contains((m, r)) {
            let z = choose|z: Node| #[trigger] cur.contains((z, r)) && adj.contains((z, m));
            assert(adj.contains((z, m)));
            assert(walk(edges, r, z, k) && adjacent(edges, z, m));
        }
        if queried(roots, r) && walk(edges, r, m, k + 1) {
            let z = choose|z: Node| #[trigger] walk(edges, r, z, k) && adjacent(edges, z, m);
            assert(cur.contains((z, r)));
            assert(adj.contains((z, m)));
            assert(joined(cur, adj, m, r));
        }
    }
}

/// The first level: every root reaches itself in no steps.
proof fn lemma_first_level(edges: Seq<(Node, Node)>, roots: Seq<(Node, Node)>, level: Seq<(Node, Node)>)
    requires
        forall|k: Node, p: Node| #[trigger] level.contains((k, p)) <==> k == p && queried(roots, k),
    ensures
        forall|m: Node, r: Node| #[trigger] level.contains((m, r)) <==> queried(roots, r) && walk(edges, r, m, 0),
{
    assert forall|m: Node, r: Node| #[trigger] level.contains((m, r)) <==> queried(roots, r) && walk(edges, r, m, 0) by {
        lemma_walk_zero(edges, r, m);
    }
}

/// Some node is reached from root `s` on level `f` and from root `t` on level `r`.
pub fn meets(f: &Vec<(Node, Node)>, s: Node, r: &Vec<(Node, Node)>, t: Node) -> (b: bool)
    ensures
        b <==> exists|m: Node| #[trigger] f@.contains((m, s)) && r@.contains((m, t)),
{
    let mut i: usize = 0;
    while i < f.len()
        invariant
            i <= f.len(),
            forall|a: int, c: int| 0 <= a < i && 0 <= c < r@.len() && f@[a].1 == s && r@[c].1 == t
                ==> #[trigger] f@[a].0 != #[trigger] r@[c].0,
        decreases f.len() - i,
    {
        let (m, root) = f[i];
        if root == s {
            let mut j: usize = 0;
            while j < r.len()
                invariant
                    i < f.len(),
                    j <= r.len(),
                    (m, root) == f@[i as int],
                    root == s,
                    forall|a: int, c: int| 0 <= a < i && 0 <= c < r@.len() && f@[a].1 == s && r@[c].1 == t
                        ==> #[trigger] f@[a].0 != #[trigger] r@[c].0,
                    forall|c: int| 0 <= c < j && #[trigger] r@[c].1 == t ==> r@[c].0 != m,
                decreases r.len() - j,
            {
                let (m2, root2) = r[j];
                if m2 == m && root2 == t {
                    proof {
                        assert(f@.contains((m, s)));
                        assert(r@[j as int] == (m, t));
                        assert(r@.contains((m, t)));
                    }
                    return true;
                }
                j += 1;
            }
        }
        i += 1;
    }
    proof {
        assert forall|m: Node| !(#[trigger] f@.contains((m, s)) && r@.contains((m, t))) by {
            if f@.contains((m, s)) && r@.contains((m, t)) {
                let a = choose|a: int| 0 <= a < f@.len() && f@[a] == (m, s);
                let c = choose|c: int| 0 <= c < r@.len() && r@[c] == (m, t);
                assert(f@[a].0 != r@[c].0);
            }
        }
    }
    false
}

/// A source level `a` and a target level `b` share a node exactly when the
/// source and target are joined by a walk of `a + b` steps.
proof fn lemma_meet(
    edges: Seq<(Node, Node)>,
    queries: Seq<(Node, Node)>,
    swapped: Seq<(Node, Node)>,
    f: Seq<(Node, Node)>,
    r: Seq<(Node, Node)>,
    s: Node,
    t: Node,
    a: int,
    b: int,
)
    requires
        0 <= a,
        0 <= b,
        queried(queries, s),
        queried(swapped, t),
        forall|m: Node, root: Node| #[trigger] f.contains((m, root)) <==> queried(queries, root) && walk(edges, root, m, a),
        forall|m: Node, root: Node| #[trigger] r.contains((m, root)) <==> queried(swapped, root) && walk(edges, root, m, b),
    ensures
        (exists|m: Node| #[trigger] f.contains((m, s)) && r.contains((m, t))) <==> walk(edges, s, t, a + b),
{
    if exists|m: Node| #[trigger] f.contains((m, s)) && r.contains((m, t)) {
        let m = choose|m: Node| #[trigger] f.contains((m, s)) && r.contains((m, t));
        lemma_walk_reverse(edges, t, m, b);
        lemma_walk_concat(edges, s, m, t, a, b);
    }
    if walk(edges, s, t, a + b) {
        lemma_walk_split(edges, s, t, a, b);
        let m = choose|m: Node| #[trigger] walk(edges, s, m, a) && walk(edges, m, t, b);
        lemma_walk_reverse(edges, m, t, b);
        assert(f.contains((m, s)) && r.contains((m, t)));
    }
}

/// Some query has `t` as its target.
pub open spec fn targeted(queries: Seq<(Node, Node)>, t: Node) -> bool {
    exists|a: Node| #[trigger] queries.contains((a, t))
}

/// Every answer pairs a queried source with a queried target at their bounded
/// distance, and no pair is answered twice.
pub open spec fn sound_answers(edges: Seq<(Node, Node)>, queries: Seq<(Node, Node)>, out: Seq<((Node, Node), u32)>) -> bool {
    &&& forall|m: int| 0 <= m < out.len() ==> queried(queries, (#[trigger] out[m]).0.0)
        && targeted(queries, out[m].0.1) && bounded_distance(edges, out[m].0.0, out[m].0.1, out[m].1 as int)
    &&& forall|a: int, b: int| 0 <= a < b < out.len() ==> (#[trigger] out[a]).0 != (#[trigger] out[b]).0
}

/// A pair has at most one bounded distance.
proof fn lemma_distance_unique(edges: Seq<(Node, Node)>, s: Node, t: Node, d1: int, d2: int)
    requires
        bounded_distance(edges, s, t, d1),
        bounded_distance(edges, s, t, d2),
    ensures
        d1 == d2,
{
    if d1 < d2 {
        assert(!walk(edges, s, t, d1));
    } else if d2 < d1 {
        assert(!walk(edges, s, t, d2));
    }
}

/// Some answer is for the pair `(s, t)`.
fn answered(out: &Vec<((Node, Node), u32)>, s: Node, t: Node) -> (r: bool)
    ensures
        r <==> exists|m: int| 0 <= m < out@.len() && (#[trigger] out@[m]).0 == (s, t),
{
    let mut i: usize = 0;
    while i < out.len()
        invariant
            i <= out@.len(),
            forall|m: int| 0 <= m < i ==> (#[trigger] out@[m]).0 != (s, t),
        decreases out.len() - i,
    {
        let ((a, b), _d) = out[i];
        if a == s && b == t {
            return true;
        }
        i += 1;
    }
    false
}

/// Answers the pair `(s, t)` from the two sides' levels unless it was
/// answered already: the least `d` up to four for which some node lies `a`
/// steps from `s` and `d - a` steps from `t`.
fn answer_pair(
    edges: &Vec<(Node, Node)>,
    queries: &Vec<(Node, Node)>,
    swapped: &Vec<(Node, Node)>,
    forward0: &Vec<(Node, Node)>,
    forward1: &Vec<(Node, Node)>,
    forward2: &Vec<(Node, Node)>,
    reverse0: &Vec<(Node, Node)>,
    reverse1: &Vec<(Node, Node)>,
    reverse2: &Vec<(Node, Node)>,
    out: &mut Vec<((Node, Node), u32)>,
    s: Node,
    t: Node,
)
    requires
        sound_answers(edges@, queries@, old(out)@),
        queried(queries@, s),
        targeted(queries@, t),
        forall|p: (Node, Node)| #[trigger] swapped@.contains(p) <==> queries@.contains((p.1, p.0)),
        forall|m: Node, root: Node| #[trigger] forward0@.contains((m, root)) <==> queried(queries@, root) && walk(edges@, root, m, 0),
        forall|m: Node, root: Node| #[trigger] forward1@.contains((m, root)) <==> queried(queries@, root) && walk(edges@, root, m, 1),
        forall|m: Node, root: Node| #[trigger] forward2@.contains((m, root)) <==> queried(queries@, root) && walk(edges@, root, m, 2),
        forall|m: Node, root: Node| #[trigger] reverse0@.contains((m, root)) <==> queried(swapped@, root) && walk(edges@, root, m, 0),
        forall|m: Node, root: Node| #[trigger] reverse1@.contains((m, root)) <==> queried(swapped@, root) && walk(edges@, root, m, 1),
        forall|m: Node, root: Node| #[trigger] reverse2@.contains((m, root)) <==> queried(swapped@, root) && walk(edges@, root, m, 2),
    ensures
        sound_answers(edges@, queries@, final(out)@),
        forall|x: ((Node, Node), u32)| old(out)@.contains(x) ==> #[trigger] final(out)@.contains(x),
        forall|d: u32| bounded_distance(edges@, s, t, d as int) ==> #[trigger] final(out)@.contains(((s, t), d)),
{
    if answered(out, s, t) {
        proof {
            let m = choose|m: int| 0 <= m < out@.len() && (#[trigger] out@[m]).0 == (s, t);
            assert forall|d: u32| bounded_distance(edges@, s, t, d as int) implies #[trigger] out@.contains(((s, t), d)) by {
                lemma_distance_unique(edges@, s, t, d as int, out@[m].1 as int);
                assert(out@[m] == ((s, t), d));
            }
        }
        return;
    }
    let m0 = meets(forward0, s, reverse0, t);
    let m1 = meets(forward1, s, reverse0, t);
    let m2 = meets(forward2, s, reverse0, t);
    let m3 = meets(forward2, s, reverse1, t);
    let m4 = meets(forward2, s, reverse2, t);
    proof {
        let a = choose|a: Node| #[trigger] queries@.contains((a, t));
        assert(swapped@.contains((t, a)));
        assert(queried(swapped@, t));
        lemma_meet(edges@, queries@, swapped@, forward0@, reverse0@, s, t, 0, 0);
        lemma_meet(edges@, queries@, swapped@, forward1@, reverse0@, s, t, 1, 0);
        lemma_meet(edges@, queries@, swapped@, forward2@, reverse0@, s, t, 2, 0);
        lemma_meet(edges@, queries@, swapped@, forward2@, reverse1@, s, t, 2, 1);
        lemma_meet(edges@, queries@, swapped@, forward2@, reverse2@, s, t, 2, 2);
    }
    let dist: Option<u32> = if m0 {
        Some(0)
    } else if m1 {
        Some(1)
    } else if m2 {
        Some(2)
    } else if m3 {
        Some(3)
    } else if m4 {
        Some(4)
    } else {
        None
    };
    proof {
        assert forall|d: u32| bounded_distance(edges@, s, t, d as int) <==> dist == Some(d) by {
            if dist == Some(d) {
                assert forall|k: int| 0 <= k < d implies !#[trigger] walk(edges@, s, t, k) by {
                    assert(k == 0 || k == 1 || k == 2 || k == 3);
                }
            }
            if bounded_distance(edges@, s, t, d as int) {
                assert(d == 0 || d == 1 || d == 2 || d == 3 || d == 4);
                if d > 0 { assert(!walk(edges@, s, t, 0)); }
                if d > 1 { assert(!walk(edges@, s, t, 1)); }
                if d > 2 { assert(!walk(edges@, s, t, 2)); }
                if d > 3 { assert(!walk(edges@, s, t, 3)); }
            }
        }
    }
    if let Some(d) = dist {
        let ghost old_out = out@;
        out.push(((s, t), d));
        proof {
            assert forall|x: ((Node, Node), u32)| old_out.contains(x) implies #[trigger] out@.contains(x) by {
                let idx = choose|idx: int| 0 <= idx < old_out.len() && old_out[idx] == x;
                assert(out@[idx] == x);
            }
            assert(out@[old_out.len() as int] == ((s, t), d));
            assert forall|m: int| 0 <= m < out@.len() implies queried(queries@, (#[trigger] out@[m]).0.0)
                && targeted(queries@, out@[m].0.1) && bounded_distance(edges@, out@[m].0.0, out@[m].0.1, out@[m].1 as int) by {
                if m < old_out.len() {
                    assert(out@[m] == old_out[m]);
                }
            }
            assert forall|a: int, b: int| 0 <= a < b < out@.len() implies (#[trigger] out@[a]).0 != (#[trigger] out@[b]).0 by {
                assert(out@[a] == old_out[a]);
                if b < old_out.len() {
                    assert(out@[b] == old_out[b]);
                }
            }
            assert forall|d2: u32| bounded_distance(edges@, s, t, d2 as int) implies #[trigger] out@.contains(((s, t), d2)) by {
                assert(dist == Some(d2));
            }
        }
    }
}

/// Bounded bidirectional shortest paths: expands two levels of neighbours from
/// every query's source and from every query's target, joins the two sides on
/// a shared node and reports, for each (source, target) pair of some query's
/// source and some query's target, `((source, target), d)` for the least total
/// `d`. A pair whose shortest path is longer than four hops gets no answer,
/// and no pair is answered twice.
pub fn three_hop(edges: &Vec<(Node, Node)>, queries: &Vec<(Node, Node)>) -> (r: Vec<((Node, Node), u32)>)
    ensures
        forall|s: Node, t: Node, d: u32| #[trigger] r@.contains(((s, t), d)) <==>
            queried(queries@, s) && targeted(queries@, t) && bounded_distance(edges@, s, t, d as int),
        forall|a: int, b: int| 0 <= a < b < r@.len() ==> #[trigger] r@[a].0 != #[trigger] r@[b].0,
{
    let adj = undirected(edges);
    let forward0 = key_by_self(queries);
    let forward1 = join_core(&forward0, &adj);
    let forward2 = join_core(&forward1, &adj);
    let swapped = swap_pairs(queries);
    let reverse0 = key_by_self(&swapped);
    let reverse1 = join_core(&reverse0, &adj);
    let reverse2 = join_core(&reverse1, &adj);
    proof {
        lemma_first_level(edges@, queries@, forward0@);
        lemma_next_level(edges@, adj@, queries@, forward0@, forward1@, 0);
        lemma_next_level(edges@, adj@, queries@, forward1@, forward2@, 1);
        lemma_first_level(edges@, swapped@, reverse0@);
        lemma_next_level(edges@, adj@, swapped@, reverse0@, reverse1@, 0);
        lemma_next_level(edges@, adj@, swapped@, reverse1@, reverse2@, 1);
    }
    let mut out: Vec<((Node, Node), u32)> = Vec::new();
    let mut i: usize = 0;
    while i < queries.len()
        invariant
            i <= queries.len(),
            forall|p: (Node, Node)| #[trigger] swapped@.contains(p) <==> queries@.contains((p.1, p.0)),
            forall|m: Node, root: Node| #[trigger] forward0@.contains((m, root)) <==> queried(queries@, root) && walk(edges@, root, m, 0),
            forall|m: Node, root: Node| #[trigger] forward1@.contains((m, root)) <==> queried(queries@, root) && walk(edges@, root, m, 1),
            forall|m: Node, root: Node| #[trigger] forward2@.contains((m, root)) <==> queried(queries@, root) && walk(edges@, root, m, 2),
            forall|m: Node, root: Node| #[trigger] reverse0@.contains((m, root)) <==> queried(swapped@, root) && walk(edges@, root, m, 0),
            forall|m: Node, root: Node| #[trigger] reverse1@.contains((m, root)) <==> queried(swapped@, root) && walk(edges@, root, m, 1),
            forall|m: Node, root: Node| #[trigger] reverse2@.contains((m, root)) <==> queried(swapped@, root) && walk(edges@, root, m, 2),
            sound_answers(edges@, queries@, out@),
            forall|a: int, b: int, d: u32| 0 <= a < i && 0 <= b < queries@.len()
                && bounded_distance(edges@, queries@[a].0, queries@[b].1, d as int)
                ==> #[trigger] out@.contains(((queries@[a].0, queries@[b].1), d)),
        decreases queries.len() - i,
    {
        let mut j: usize = 0;
        while j < queries.len()
            invariant
                i < queries.len(),
                j <= queries.len(),
                forall|p: (Node, Node)| #[trigger] swapped@.contains(p) <==> queries@.contains((p.1, p.0)),
                forall|m: Node, root: Node| #[trigger] forward0@.contains((m, root)) <==> queried(queries@, root) && walk(edges@, root, m, 0),
                forall|m: Node, root: Node| #[trigger] forward1@.contains((m, root)) <==> queried(queries@, root) && walk(edges@, root, m, 1),
                forall|m: Node, root: Node| #[trigger] forward2@.contains((m, root)) <==> queried(queries@, root) && walk(edges@, root, m, 2),
                forall|m: Node, root: Node| #[trigger] reverse0@.contains((m, root)) <==> queried(swapped@, root) && walk(edges@, root, m, 0),
                forall|m: Node, root: Node| #[trigger] reverse1@.contains((m, root)) <==> queried(swapped@, root) && walk(edges@, root, m, 1),
                forall|m: Node, root: Node| #[trigger] reverse2@.contains((m, root)) <==> queried(swapped@, root) && walk(edges@, root, m, 2),
                sound_answers(edges@, queries@, out@),
                forall|a: int, b: int, d: u32| 0 <= a < i && 0 <= b < queries@.len()
                    && bounded_distance(edges@, queries@[a].0, queries@[b].1, d as int)
                    ==> #[trigger] out@.contains(((queries@[a].0, queries@[b].1), d)),
                forall|b: int, d: u32| 0 <= b < j
                    && bounded_distance(edges@, queries@[i as int].0, queries@[b].1, d as int)
                    ==> #[trigger] out@.contains(((queries@[i as int].0, queries@[b].1), d)),
            decreases queries.len() - j,
        {
            let (s, _) = queries[i];
            let (_, t) = queries[j];
            let ghost prev = out@;
            proof {
                assert(queries@.contains(queries@[i as int]));
                assert(queries@.contains(queries@[j as int]));
                assert(queries@.contains((s, queries@[i as int].1)));
                assert(queries@.contains((queries@[j as int].0, t)));
            }
            answer_pair(edges, queries, &swapped, &forward0, &forward1, &forward2, &reverse0, &reverse1, &reverse2, &mut out, s, t);
            proof {
                assert forall|a: int, b: int, d: u32| 0 <= a < i && 0 <= b < queries@.len()
                    && bounded_distance(edges@, queries@[a].0, queries@[b].1, d as int)
                    implies #[trigger] out@.contains(((queries@[a].0, queries@[b].1), d)) by {
                    assert(prev.contains(((queries@[a].0, queries@[b].1), d)));
                }
                assert forall|b: int, d: u32| 0 <= b < j + 1
                    && bounded_distance(edges@, queries@[i as int].0, queries@[b].1, d as int)
                    implies #[trigger] out@.contains(((queries@[i as int].0, queries@[b].1), d)) by {
                    if b < j {
                        assert(prev.contains(((queries@[i as int].0, queries@[b].1), d)));
                    }
                }
            }
            j += 1;
        }
        i += 1;
    }
    proof {
        assert forall|s: Node, t: Node, d: u32| #[trigger] out@.contains(((s, t), d)) <==>
            queried(queries@, s) && targeted(queries@, t) && bounded_distance(edges@, s, t, d as int) by {
            if out@.contains(((s, t), d)) {
                let m = choose|m: int| 0 <= m < out@.len() && out@[m] == ((s, t), d);
                assert(queried(queries@, out@[m].0.0));
            }
            if queried(queries@, s) && targeted(queries@, t) && bounded_distance(edges@, s, t, d as int) {
                let b0 = choose|b0: Node| #[trigger] queries@.contains((s, b0));
                let a0 = choose|a0: Node| #[trigger] queries@.contains((a0, t));
                let a = choose|a: int| 0 <= a < queries@.len() && queries@[a] == (s, b0);
                let b = choose|b: int| 0 <= b < queries@.len() && queries@[b] == (a0, t);
                assert(out@.contains(((queries@[a].0, queries@[b].1), d)));
            }
        }
    }
    out
}

/// The read query that a run answers.
#[derive(Clone, Copy, Debug, PartialEq, Eq, Structural)]
pub enum QueryMode {
    /// The state of the queried node.
    PointLookup,
    /// The state of the queried node's neighbours.
    OneHop,
    /// The state of the queried node's neighbours' neighbours.
    TwoHop,
    /// The bounded shortest-path length between the two queried nodes.
    ShortestPath,
}

/// The query mode numbered `code`, one to four; any other number selects none.
pub fn mode_from_code(code: u64) -> (r: Option<QueryMode>)
    ensures
        code == 1 <==> r == Some(QueryMode::PointLookup),
        code == 2 <==> r == Some(QueryMode::OneHop),
        code == 3 <==> r == Some(QueryMode::TwoHop),
        code == 4 <==> r == Some(QueryMode::ShortestPath),
        r is None <==> !(1 <= code <= 4),
{
    if code == 1 {
        Some(QueryMode::PointLookup)
    } else if code == 2 {
        Some(QueryMode::OneHop)
    } else if code == 3 {
        Some(QueryMode::TwoHop)
    } else if code == 4 {
        Some(QueryMode::ShortestPath)
    } else {
        None
    }
}

} // verus!
