use vstd::prelude::*;
use crate::query::Node;

verus! {

broadcast use vstd::seq_lib::group_to_multiset_ensures;

/// A change to a relation: `diff` copies of the pair `(key, value)` at
/// logical time `time`.
#[derive(Clone, Copy, Debug, PartialEq, Eq, Structural)]
pub struct Update {
    pub key: Node,
    pub value: Node,
    pub time: u64,
    pub diff: i64,
}

/// What one update adds to the multiplicity of `x` as seen at time `t`.
pub open spec fn contribution(u: Update, x: (Node, Node), t: int) -> int {
    if u.key == x.0 && u.value == x.1 && u.time <= t {
        u.diff as int
    } else {
        0
    }
}

/// The net multiplicity of `x` at time `t` after the updates `s`.
pub open spec fn net(s: Seq<Update>, x: (Node, Node), t: int) -> int
    decreases s.len(),
{
    if s.len() == 0 {
        0
    } else {
        net(s.drop_last(), x, t) + contribution(s.last(), x, t)
    }
}

/// Taking one update out of a sequence takes its contribution out of the sum.
pub proof fn lemma_net_remove(s: Seq<Update>, j: int, x: (Node, Node), t: int)
    requires
        0 <= j < s.len(),
    ensures
        net(s, x, t) == net(s.remove(j), x, t) + contribution(s[j], x, t),
    decreases s.len(),
{
    if j < s.len() - 1 {
        let d = s.drop_last();
        lemma_net_remove(d, j, x, t);
        assert(s.remove(j).drop_last() =~= d.remove(j));
        assert(s.remove(j).last() == s.last());
        assert(d[j] == s[j]);
    } else {
        assert(s.remove(j) =~= s.drop_last());
    }
}

/// Multiset consistency: replaying the same updates in any order gives every
/// tuple the same net multiplicity at every time.
pub proof fn lemma_net_permutation(a: Seq<Update>, b: Seq<Update>, x: (Node, Node), t: int)
    requires
        a.to_multiset() == b.to_multiset(),
    ensures
        net(a, x, t) == net(b, x, t),
    decreases a.len(),
{
    assert(a.len() == a.to_multiset().len());
    assert(b.len() == b.to_multiset().len());
    if a.len() > 0 {
        let e = a.last();
        let a1 = a.drop_last();
        assert(a1.push(e) =~= a);
        assert(a.to_multiset() =~= a1.to_multiset().insert(e));
        assert(a.to_multiset().count(e) > 0);
        assert(b.contains(e));
        let j = choose|j: int| 0 <= j < b.len() && b[j] == e;
        let b1 = b.remove(j);
        assert(b1.to_multiset() =~= b.to_multiset().remove(e));
        assert(a1.to_multiset() =~= a.to_multiset().remove(e));
        lemma_net_permutation(a1, b1, x, t);
        lemma_net_remove(b, j, x, t);
    }
}

/// An evolving multiset of pairs with logical times. Changes are submitted at
/// the relation's current time, which only moves forward; `flush` commits
/// what was submitted so far. This is a model of an input relation, used to
/// state multiset consistency; the running benchmark feeds differential
/// dataflow's input sessions instead.
pub struct Relation {
    updates: Vec<Update>,
    committed: usize,
    time: u64,
}

impl Relation {
    /// Every update submitted so far, in order.
    pub closed spec fn updates(&self) -> Seq<Update> {
        self.updates@
    }

    /// The number of updates committed by `flush`.
    pub closed spec fn committed(&self) -> int {
        self.committed as int
    }

    /// The time at which changes are now submitted.
    pub closed spec fn time_spec(&self) -> u64 {
        self.time
    }

    pub closed spec fn wf(&self) -> bool {
        &&& self.committed <= self.updates@.len()
        &&& forall|i: int| 0 <= i < self.updates@.len() ==> (#[trigger] self.updates@[i]).time <= self.time
        &&& forall|i: int| 0 <= i < self.updates@.len() ==> (#[trigger] self.updates@[i]).diff == 1
            || self.updates@[i].diff == -1
    }

    /// An empty relation at time zero.
    pub fn new() -> (r: Relation)
        ensures
            r.wf(),
            r.updates() == Seq::<Update>::empty(),
            r.committed() == 0,
            r.time_spec() == 0,
    {
        Relation { updates: Vec::new(), committed: 0, time: 0 }
    }

    /// The time at which changes are now submitted.
    pub fn time(&self) -> (r: u64)
        ensures
            r == self.time_spec(),
    {
        self.time
    }

    /// Declares that no further change comes before `t`. Moving time backwards
    /// is a programming error.
    pub fn advance_to(&mut self, t: u64)
        requires
            old(self).wf(),
            old(self).time_spec() <= t,
        ensures
            final(self).wf(),
            final(self).updates() == old(self).updates(),
            final(self).committed() == old(self).committed(),
            final(self).time_spec() == t,
    {
        self.time = t;
    }

    /// Adds one copy of `x` at the current time.
    pub fn insert(&mut self, x: (Node, Node))
        requires
            old(self).wf(),
        ensures
            final(self).wf(),
            final(self).updates() == old(self).updates().push(Update { key: x.0, value: x.1, time: old(self).time_spec(), diff: 1i64 }),
            final(self).committed() == old(self).committed(),
            final(self).time_spec() == old(self).time_spec(),
    {
        self.updates.push(Update { key: x.0, value: x.1, time: self.time, diff: 1 });
    }

    /// Takes one copy of `x` away at the current time.
    pub fn remove(&mut self, x: (Node, Node))
        requires
            old(self).wf(),
        ensures
            final(self).wf(),
            final(self).updates() == old(self).updates().push(Update { key: x.0, value: x.1, time: old(self).time_spec(), diff: -1i64 }),
            final(self).committed() == old(self).committed(),
            final(self).time_spec() == old(self).time_spec(),
    {
        self.updates.push(Update { key: x.0, value: x.1, time: self.time, diff: -1 });
    }

    /// Commits every change submitted so far.
    pub fn flush(&mut self)
        requires
            old(self).wf(),
        ensures
            final(self).wf(),
            final(self).updates() == old(self).updates(),
            final(self).committed() == old(self).updates().len(),
            final(self).time_spec() == old(self).time_spec(),
    {
        self.committed = self.updates.len();
    }

    /// The net multiplicity of `x` at time `t` over the committed changes.
    pub fn multiplicity(&self, x: (Node, Node), t: u64) -> (r: i64)
        requires
            self.wf(),
            self.committed() <= i64::MAX,
        ensures
            r == net(self.updates().subrange(0, self.committed()), x, t as int),
    {
        let mut acc: i64 = 0;
        let mut i: usize = 0;
        while i < self.committed
            invariant
                self.wf(),
                self.committed <= i64::MAX,
                i <= self.committed,
                acc == net(self.updates@.subrange(0, i as int), x, t as int),
                -(i as int) <= acc <= i,
            decreases self.committed - i,
        {
            let u = self.updates[i];
            proof {
                let s = self.updates@.subrange(0, i + 1);
                assert(s.drop_last() =~= self.updates@.subrange(0, i as int));
                assert(s.last() == u);
                assert(u.diff == 1 || u.diff == -1);
            }
            if u.key == x.0 && u.value == x.1 && u.time <= t {
                acc = acc + u.diff;
            }
            i += 1;
        }
        acc
    }
}

/// The latest time there is: an arrangement shows the net effect of every
/// update applied to it.
pub open spec fn all_time() -> int {
    u64::MAX as int
}

/// A key-indexed view of a relation, kept up to date one update at a time:
/// each entry `(key, value, m)` says that the pair has net multiplicity `m`,
/// and a pair missing from the entries has multiplicity zero. This is a model
/// of an arrangement on one worker; the running benchmark uses differential
/// dataflow's arrangements instead.
pub struct Arrangement {
    entries: Vec<(Node, Node, i64)>,
    applied: Ghost<Seq<Update>>,
}

impl Arrangement {
    /// The updates applied so far, in order.
    pub closed spec fn applied(&self) -> Seq<Update> {
        self.applied@
    }

    pub closed spec fn wf(&self) -> bool {
        &&& forall|i: int, j: int| 0 <= i < j < self.entries@.len()
            ==> (#[trigger] self.entries@[i]).0 != (#[trigger] self.entries@[j]).0
                || self.entries@[i].1 != self.entries@[j].1
        &&& forall|i: int| 0 <= i < self.entries@.len() ==> (#[trigger] self.entries@[i]).2
            == net(self.applied@, (self.entries@[i].0, self.entries@[i].1), all_time())
        &&& forall|x: (Node, Node)| net(self.applied@, x, all_time()) != 0
            ==> exists|i: int| 0 <= i < self.entries@.len() && #[trigger] self.entries@[i].0 == x.0
                && self.entries@[i].1 == x.1
        &&& forall|i: int| 0 <= i < self.applied@.len() ==> (#[trigger] self.applied@[i]).diff == 1
            || self.applied@[i].diff == -1
    }

    /// An empty arrangement.
    pub fn new() -> (a: Arrangement)
        ensures
            a.wf(),
            a.applied() == Seq::<Update>::empty(),
    {
        Arrangement { entries: Vec::new(), applied: Ghost(Seq::empty()) }
    }

    /// Applies one insertion or retraction to the index, touching only the
    /// entry of its pair.
    pub fn apply(&mut self, u: Update)
        requires
            old(self).wf(),
            u.diff == 1 || u.diff == -1,
            old(self).applied().len() < i64::MAX,
        ensures
            final(self).wf(),
            final(self).applied() == old(self).applied().push(u),
    {
        let ghost before = self.applied@;
        let ghost after = before.push(u);
        proof {
            assert(after.drop_last() =~= before);
            assert forall|x: (Node, Node)| net(after, x, all_time()) == net(before, x, all_time()) + contribution(u, x, all_time()) by {}
            lemma_net_bound(before, (u.key, u.value), all_time());
        }
        let found = find_entry(&self.entries, u.key, u.value);
        if let Some(i) = found {
            let (k, v, m) = self.entries[i];
            let ghost old_entries = self.entries@;
            self.entries.set(i, (k, v, m + u.diff));
            self.applied = Ghost(after);
            proof {
                assert forall|j: int| 0 <= j < self.entries@.len() implies (#[trigger] self.entries@[j]).2
                    == net(after, (self.entries@[j].0, self.entries@[j].1), all_time()) by {
                    if j != i {
                        assert(self.entries@[j] == old_entries[j]);
                        assert(old_entries[j].0 != u.key || old_entries[j].1 != u.value);
                    }
                }
                assert forall|x: (Node, Node)| net(after, x, all_time()) != 0
                    implies exists|j: int| 0 <= j < self.entries@.len() && #[trigger] self.entries@[j].0 == x.0
                        && self.entries@[j].1 == x.1 by {
                    if x == (u.key, u.value) {
                        assert(self.entries@[i as int].0 == x.0);
                    } else {
                        let j = choose|j: int| 0 <= j < old_entries.len() && #[trigger] old_entries[j].0 == x.0
                            && old_entries[j].1 == x.1;
                        assert(self.entries@[j] == old_entries[j] || j == i);
                        assert(self.entries@[j].0 == x.0);
                    }
                }
                assert forall|a: int, b: int| 0 <= a < b < self.entries@.len()
                    implies (#[trigger] self.entries@[a]).0 != (#[trigger] self.entries@[b]).0
                        || self.entries@[a].1 != self.entries@[b].1 by {
                    assert(old_entries[a].0 != old_entries[b].0 || old_entries[a].1 != old_entries[b].1);
                }
            }
        } else {
            let ghost old_entries = self.entries@;
            self.entries.push((u.key, u.value, u.diff));
            self.applied = Ghost(after);
            proof {
                assert(net(before, (u.key, u.value), all_time()) == 0) by {
                    if net(before, (u.key, u.value), all_time()) != 0 {
                        let j = choose|j: int| 0 <= j < old_entries.len() && #[trigger] old_entries[j].0 == u.key
                            && old_entries[j].1 == u.value;
                    }
                }
                assert forall|j: int| 0 <= j < self.entries@.len() implies (#[trigger] self.entries@[j]).2
                    == net(after, (self.entries@[j].0, self.entries@[j].1), all_time()) by {
                    if j < old_entries.len() {
                        assert(self.entries@[j] == old_entries[j]);
                    }
                }
                assert forall|x: (Node, Node)| net(after, x, all_time()) != 0
                    implies exists|j: int| 0 <= j < self.entries@.len() && #[trigger] self.entries@[j].0 == x.0
                        && self.entries@[j].1 == x.1 by {
                    if x == (u.key, u.value) {
                        assert(self.entries@[old_entries.len() as int].0 == x.0);
                    } else {
                        let j = choose|j: int| 0 <= j < old_entries.len() && #[trigger] old_entries[j].0 == x.0
                            && old_entries[j].1 == x.1;
                        assert(self.entries@[j] == old_entries[j]);
                    }
                }
                assert forall|a: int, b: int| 0 <= a < b < self.entries@.len()
                    implies (#[trigger] self.entries@[a]).0 != (#[trigger] self.entries@[b]).0
                        || self.entries@[a].1 != self.entries@[b].1 by {
                    if b < old_entries.len() {
                        assert(old_entries[a].0 != old_entries[b].0 || old_entries[a].1 != old_entries[b].1);
                    } else {
                        assert(self.entries@[a] == old_entries[a]);
                    }
                }
                assert forall|j: int| 0 <= j < after.len() implies (#[trigger] after[j]).diff == 1 || after[j].diff == -1 by {
                    if j < before.len() {
                        assert(after[j] == before[j]);
                    }
                }
            }
        }
        proof {
            assert forall|j: int| 0 <= j < after.len() implies (#[trigger] after[j]).diff == 1 || after[j].diff == -1 by {
                if j < before.len() {
                    assert(after[j] == before[j]);
                }
            }
        }
    }

    /// The values stored under `key` with their net multiplicities, leaving
    /// out those that cancelled to zero.
    pub fn lookup(&self, key: Node) -> (r: Vec<(Node, i64)>)
        requires
            self.wf(),
        ensures
            forall|v: Node, m: i64| #[trigger] r@.contains((v, m)) <==>
                m != 0 && m == net(self.applied(), (key, v), all_time()),
    {
        let mut r: Vec<(Node, i64)> = Vec::new();
        let mut i: usize = 0;
        while i < self.entries.len()
            invariant
                self.wf(),
                i <= self.entries@.len(),
                forall|v: Node, m: i64| #[trigger] r@.contains((v, m)) <==> m != 0 && exists|j: int|
                    0 <= j < i && #[trigger] self.entries@[j] == (key, v, m),
            decreases self.entries.len() - i,
        {
            let (k, v, m) = self.entries[i];
            let ghost old_r = r@;
            if k == key && m != 0 {
                r.push((v, m));
            }
            proof {
                assert forall|w: Node, n: i64| #[trigger] r@.contains((w, n)) <==> n != 0 && exists|j: int|
                    0 <= j < i + 1 && #[trigger] self.entries@[j] == (key, w, n) by {
                    if r@.contains((w, n)) {
                        let idx = choose|idx: int| 0 <= idx < r@.len() && r@[idx] == (w, n);
                        if idx < old_r.len() {
                            assert(old_r[idx] == (w, n));
                            assert(old_r.contains((w, n)));
                        } else {
                            assert(self.entries@[i as int] == (key, w, n));
                        }
                    }
                    if n != 0 && exists|j: int| 0 <= j < i + 1 && #[trigger] self.entries@[j] == (key, w, n) {
                        let j = choose|j: int| 0 <= j < i + 1 && #[trigger] self.entries@[j] == (key, w, n);
                        if j < i {
                            assert(old_r.contains((w, n)));
                            let idx = choose|idx: int| 0 <= idx < old_r.len() && old_r[idx] == (w, n);
                            assert(r@[idx] == (w, n));
                        } else {
                            assert(r@[r@.len() - 1] == (w, n));
                        }
                    }
                }
            }
            i += 1;
        }
        proof {
            assert forall|v: Node, m: i64| #[trigger] r@.contains((v, m)) <==>
                m != 0 && m == net(self.applied@, (key, v), all_time()) by {
                if m != 0 && m == net(self.applied@, (key, v), all_time()) {
                    let j = choose|j: int| 0 <= j < self.entries@.len() && #[trigger] self.entries@[j].0 == key
                        && self.entries@[j].1 == v;
                    assert(self.entries@[j] == (key, v, m));
                }
            }
        }
        r
    }
}

/// The position of the entry for the pair `(key, value)`, if there is one.
fn find_entry(entries: &Vec<(Node, Node, i64)>, key: Node, value: Node) -> (r: Option<usize>)
    ensures
        match r {
            Some(i) => i < entries@.len() && entries@[i as int].0 == key && entries@[i as int].1 == value,
            None => forall|j: int| 0 <= j < entries@.len() ==> (#[trigger] entries@[j]).0 != key
                || entries@[j].1 != value,
        },
{
    let mut i: usize = 0;
    while i < entries.len()
        invariant
            i <= entries@.len(),
            forall|j: int| 0 <= j < i ==> (#[trigger] entries@[j]).0 != key || entries@[j].1 != value,
        decreases entries.len() - i,
    {
        let (k, v, _m) = entries[i];
        if k == key && v == value {
            return Some(i);
        }
        i += 1;
    }
    None
}

/// The net multiplicity of a pair is bounded by the number of unit updates.
pub proof fn lemma_net_bound(s: Seq<Update>, x: (Node, Node), t: int)
    requires
        forall|i: int| 0 <= i < s.len() ==> (#[trigger] s[i]).diff == 1 || s[i].diff == -1,
    ensures
        -s.len() <= net(s, x, t) <= s.len(),
    decreases s.len(),
{
    if s.len() > 0 {
        let d = s.drop_last();
        assert forall|i: int| 0 <= i < d.len() implies (#[trigger] d[i]).diff == 1 || d[i].diff == -1 by {
            assert(d[i] == s[i]);
        }
        lemma_net_bound(d, x, t);
        assert(s.last() == s[s.len() - 1]);
    }
}

} // verus!
