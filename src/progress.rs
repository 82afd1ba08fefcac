use vstd::prelude::*;

verus! {

/// The least value of a non-empty sequence.
pub open spec fn seq_min(s: Seq<u64>) -> u64
    decreases s.len(),
{
    if s.len() <= 1 {
        s[0]
    } else {
        let rest = seq_min(s.drop_last());
        if s.last() < rest {
            s.last()
        } else {
            rest
        }
    }
}

/// The least value is at most every value, and is one of them.
pub proof fn lemma_seq_min(s: Seq<u64>)
    requires
        s.len() >= 1,
    ensures
        forall|i: int| 0 <= i < s.len() ==> seq_min(s) <= #[trigger] s[i],
        exists|i: int| 0 <= i < s.len() && seq_min(s) == #[trigger] s[i],
    decreases s.len(),
{
    if s.len() > 1 {
        lemma_seq_min(s.drop_last());
        let j = choose|j: int| 0 <= j < s.drop_last().len() && seq_min(s.drop_last()) == #[trigger] s.drop_last()[j];
        if s.last() < seq_min(s.drop_last()) {
            assert(seq_min(s) == s[s.len() - 1]);
        } else {
            assert(s.drop_last()[j] == s[j]);
            assert(seq_min(s) == s[j]);
        }
        assert forall|i: int| 0 <= i < s.len() implies seq_min(s) <= #[trigger] s[i] by {
            if i < s.len() - 1 {
                assert(s[i] == s.drop_last()[i]);
            }
        }
    } else {
        assert(seq_min(s) == s[0]);
    }
}

/// Raising some entries never lowers the least one: the global watermark, the
/// least of the workers' watermarks, is non-decreasing while each of them is.
pub proof fn lemma_min_monotone(before: Seq<u64>, after: Seq<u64>)
    requires
        before.len() >= 1,
        after.len() == before.len(),
        forall|i: int| 0 <= i < before.len() ==> before[i] <= #[trigger] after[i],
    ensures
        seq_min(before) <= seq_min(after),
{
    lemma_seq_min(before);
    lemma_seq_min(after);
    let j = choose|j: int| 0 <= j < after.len() && seq_min(after) == #[trigger] after[j];
    assert(seq_min(before) <= before[j]);
}

/// The completeness watermark of each worker's outputs, and the global one:
/// the least of them. This is a model of the frontier, used to state that
/// the global watermark never decreases; the running benchmark reads timely's
/// probe instead.
pub struct Watermark {
    locals: Vec<u64>,
}

impl Watermark {
    /// Each worker's watermark.
    pub closed spec fn locals(&self) -> Seq<u64> {
        self.locals@
    }

    pub closed spec fn wf(&self) -> bool {
        self.locals@.len() >= 1
    }

    /// The global watermark: no output below it will change.
    pub open spec fn global_spec(&self) -> u64 {
        seq_min(self.locals())
    }

    /// Watermarks for `workers` workers, all at time zero.
    pub fn new(workers: usize) -> (w: Watermark)
        requires
            workers >= 1,
        ensures
            w.wf(),
            w.locals() == Seq::new(workers as nat, |i: int| 0u64),
    {
        let mut locals: Vec<u64> = Vec::new();
        let mut i: usize = 0;
        while i < workers
            invariant
                i <= workers,
                locals@ == Seq::new(i as nat, |j: int| 0u64),
            decreases workers - i,
        {
            locals.push(0);
            i += 1;
            assert(locals@ =~= Seq::new(i as nat, |j: int| 0u64));
        }
        Watermark { locals }
    }

    /// Records that `worker`'s outputs are complete below `frontier`. A
    /// frontier never moves back, so an older report is kept where it is
    /// the higher one. The global watermark does not decrease.
    pub fn observe(&mut self, worker: usize, frontier: u64)
        requires
            old(self).wf(),
            worker < old(self).locals().len(),
        ensures
            final(self).wf(),
            final(self).locals() == old(self).locals().update(
                worker as int,
                if frontier > old(self).locals()[worker as int] { frontier } else { old(self).locals()[worker as int] },
            ),
            final(self).global_spec() >= old(self).global_spec(),
    {
        let cur = self.locals[worker];
        if frontier > cur {
            self.locals.set(worker, frontier);
        }
        proof {
            lemma_min_monotone(old(self).locals(), self.locals());
        }
    }

    /// The global watermark.
    pub fn global(&self) -> (r: u64)
        requires
            self.wf(),
        ensures
            r == self.global_spec(),
    {
        let mut m: u64 = self.locals[0];
        let mut i: usize = 1;
        proof {
            assert(self.locals@.subrange(0, 1).drop_last().len() == 0);
            assert(seq_min(self.locals@.subrange(0, 1)) == self.locals@[0]);
        }
        while i < self.locals.len()
            invariant
                1 <= i <= self.locals@.len(),
                m == seq_min(self.locals@.subrange(0, i as int)),
            decreases self.locals.len() - i,
        {
            let v = self.locals[i];
            proof {
                let s = self.locals@.subrange(0, i + 1);
                assert(s.drop_last() =~= self.locals@.subrange(0, i as int));
                assert(s.last() == v);
            }
            if v < m {
                m = v;
            }
            i += 1;
        }
        proof {
            assert(self.locals@.subrange(0, self.locals@.len() as int) =~= self.locals@);
        }
        m
    }
}

} // verus!
