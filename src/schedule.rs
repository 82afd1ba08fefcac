use vstd::prelude::*;

verus! {

/// Width of the batching window in nanoseconds (2^20).
pub const WINDOW_NS: u64 = 1048576;

/// Largest advance of virtual time past the inserted time in one iteration.
pub const CATCH_UP_NS: u64 = 1000000000;

/// Nanoseconds per second.
pub const NS_PER_SEC: u64 = 1000000000;

/// Virtual times handled by the schedule stay below this bound (2^62 ns).
pub const HORIZON_NS: u64 = 0x4000_0000_0000_0000;

/// `t` rounded down to the start of its batching window.
pub open spec fn window_floor(t: int) -> int {
    (t / WINDOW_NS as int) * WINDOW_NS as int
}

/// The largest time the inputs may be advanced to from `inserted`.
pub open spec fn catch_up_cap(inserted: int) -> int {
    if inserted + CATCH_UP_NS <= u64::MAX {
        inserted + CATCH_UP_NS
    } else {
        u64::MAX as int
    }
}

pub open spec fn spec_pace_target(elapsed: int, inserted: int) -> int {
    if window_floor(elapsed) > catch_up_cap(inserted) {
        catch_up_cap(inserted)
    } else {
        window_floor(elapsed)
    }
}

/// The time to which the inputs should next be advanced: the wall clock
/// rounded down to its window, but never more than one second past the time
/// already inserted.
pub fn pace_target(elapsed_ns: u64, inserted_ns: u64) -> (r: u64)
    ensures
        r == spec_pace_target(elapsed_ns as int, inserted_ns as int),
        r <= elapsed_ns,
        r as int <= inserted_ns as int + CATCH_UP_NS,
{
    let floor = (elapsed_ns / WINDOW_NS) * WINDOW_NS;
    assert(floor <= elapsed_ns) by (nonlinear_arith)
        requires floor == (elapsed_ns / WINDOW_NS) * WINDOW_NS, WINDOW_NS > 0;
    let cap = if inserted_ns <= u64::MAX - CATCH_UP_NS {
        inserted_ns + CATCH_UP_NS
    } else {
        u64::MAX
    };
    if floor > cap {
        cap
    } else {
        floor
    }
}

/// The relation that a request mutates.
#[derive(Clone, Copy, Debug, PartialEq, Eq, Structural)]
pub enum Target {
    Graph,
    Query,
}

/// A request of the open-loop workload: its place in the global request
/// sequence, its nominal issue time and the relation it mutates.
#[derive(Clone, Copy, Debug, PartialEq, Eq, Structural)]
pub struct Request {
    pub counter: u64,
    pub time_ns: u64,
    pub target: Target,
}

/// Why a schedule cannot be set up.
#[derive(Clone, Copy, Debug, PartialEq, Eq, Structural)]
pub enum ConfigError {
    /// There are no workers.
    NoPeers,
    /// The worker index is not below the number of workers.
    WorkerOutOfRange,
    /// The offered rate gives no request per second to either relation.
    RateTooLow,
    /// The offered rate leaves less than a nanosecond between requests.
    RateTooHigh,
    /// One round of requests over all workers overruns the time horizon.
    TooManyPeers,
    /// The acknowledgement target does not fit in 64 bits.
    GoalTooLarge,
}

/// Even rounds of `peers` requests mutate the graph, odd rounds the queries.
pub open spec fn target_of(counter: int, peers: int) -> Target {
    if (counter / peers) % 2 == 0 {
        Target::Graph
    } else {
        Target::Query
    }
}

/// The `i`-th request from `counter` on, stepping by `peers`.
pub open spec fn nth_request(counter: int, peers: int, ns_per_request: int, i: int) -> Request {
    let k = counter + i * peers;
    Request { counter: k as u64, time_ns: (k * ns_per_request) as u64, target: target_of(k, peers) }
}

/// The latencies kept from the first `n` acknowledgements from `counter` on:
/// those past the first half of the run.
pub open spec fn retained(counter: int, peers: int, ns_per_request: int, ack_target: int, elapsed: int, n: int) -> Seq<u64>
    decreases n,
{
    if n <= 0 {
        seq![]
    } else {
        let rest = retained(counter, peers, ns_per_request, ack_target, elapsed, n - 1);
        let k = counter + (n - 1) * peers;
        if k > ack_target / 2 {
            rest.push((elapsed - k * ns_per_request) as u64)
        } else {
            rest
        }
    }
}

/// One worker's slice of the open-loop workload: requests `k` with
/// `k % peers == index`, the `k`-th issued at `k * ns_per_request`.
pub struct Schedule {
    pub index: u64,
    pub peers: u64,
    pub ns_per_request: u64,
    pub request_counter: u64,
    pub ack_counter: u64,
    pub ack_target: u64,
    pub inserted_ns: u64,
}

impl Schedule {
    pub open spec fn wf(&self) -> bool {
        &&& self.peers > 0
        &&& self.index < self.peers
        &&& self.ns_per_request > 0
        &&& self.peers * self.ns_per_request <= HORIZON_NS
        &&& self.request_counter % self.peers == self.index
        &&& self.ack_counter % self.peers == self.index
        &&& self.request_counter * self.ns_per_request <= 2 * HORIZON_NS
        &&& self.ack_counter * self.ns_per_request <= 2 * HORIZON_NS
        &&& self.inserted_ns <= HORIZON_NS
    }

    /// The schedule of worker `index` of `peers` at an offered `rate` (requests
    /// per second over both relations), running until `goal * rate`
    /// acknowledgements. Each worker skips its first request.
    pub fn new(index: u64, peers: u64, rate: u64, goal: u64) -> (r: Result<Schedule, ConfigError>)
        ensures
            peers == 0 ==> r == Err::<Schedule, ConfigError>(ConfigError::NoPeers),
            peers > 0 && index >= peers ==> r == Err::<Schedule, ConfigError>(ConfigError::WorkerOutOfRange),
            peers > 0 && index < peers && rate / 2 == 0 ==> r == Err::<Schedule, ConfigError>(ConfigError::RateTooLow),
            peers > 0 && index < peers && rate / 2 > NS_PER_SEC ==> r == Err::<Schedule, ConfigError>(ConfigError::RateTooHigh),
            peers > 0 && index < peers && 0 < rate / 2 <= NS_PER_SEC
                && peers * (NS_PER_SEC / (rate / 2)) > HORIZON_NS ==> r == Err::<Schedule, ConfigError>(ConfigError::TooManyPeers),
            peers > 0 && index < peers && 0 < rate / 2 <= NS_PER_SEC
                && peers * (NS_PER_SEC / (rate / 2)) <= HORIZON_NS && goal * rate > u64::MAX
                ==> r == Err::<Schedule, ConfigError>(ConfigError::GoalTooLarge),
            r is Ok ==> {
                let s = r->Ok_0;
                &&& s.wf()
                &&& s.index == index
                &&& s.peers == peers
                &&& s.ns_per_request == NS_PER_SEC / (rate / 2)
                &&& s.request_counter == peers + index
                &&& s.ack_counter == peers + index
                &&& s.ack_target == goal * rate
                &&& s.inserted_ns == 1
            },
            (peers > 0 && index < peers && 0 < rate / 2 <= NS_PER_SEC
                && peers * (NS_PER_SEC / (rate / 2)) <= HORIZON_NS && goal * rate <= u64::MAX) ==> r is Ok,
    {
        if peers == 0 {
            return Err(ConfigError::NoPeers);
        }
        if index >= peers {
            return Err(ConfigError::WorkerOutOfRange);
        }
        let per_relation = rate / 2;
        if per_relation == 0 {
            return Err(ConfigError::RateTooLow);
        }
        if per_relation > NS_PER_SEC {
            return Err(ConfigError::RateTooHigh);
        }
        let ns = NS_PER_SEC / per_relation;
        assert(ns >= 1) by (nonlinear_arith)
            requires ns == NS_PER_SEC / per_relation, 0 < per_relation <= NS_PER_SEC;
        if peers > HORIZON_NS / ns {
            assert(peers * ns > HORIZON_NS) by (nonlinear_arith)
                requires peers > HORIZON_NS / ns, ns >= 1;
            return Err(ConfigError::TooManyPeers);
        }
        assert(peers * ns <= HORIZON_NS) by (nonlinear_arith)
            requires peers <= HORIZON_NS / ns, ns >= 1;
        if rate > 0 && goal > u64::MAX / rate {
            assert(goal * rate > u64::MAX) by (nonlinear_arith)
                requires goal > u64::MAX / rate, rate > 0;
            return Err(ConfigError::GoalTooLarge);
        }
        assert(goal * rate <= u64::MAX) by (nonlinear_arith)
            requires rate == 0 || goal <= u64::MAX / rate;
        let first = peers + index;
        assert(first * ns <= 2 * HORIZON_NS) by (nonlinear_arith)
            requires first < 2 * peers, peers * ns <= HORIZON_NS;
        assert(first % peers == index) by (nonlinear_arith)
            requires first == peers + index, index < peers;
        Ok(Schedule {
            index,
            peers,
            ns_per_request: ns,
            request_counter: first,
            ack_counter: first,
            ack_target: goal * rate,
            inserted_ns: 1,
        })
    }

    /// Every acknowledgement that the run waits for has been seen.
    pub fn done(&self) -> (r: bool)
        ensures
            r == (self.ack_counter >= self.ack_target),
    {
        self.ack_counter >= self.ack_target
    }

    /// Advances virtual time for one iteration at wall-clock time `elapsed_ns`:
    /// when the paced target lies past the inserted time, hands out every
    /// request issued before the target, in order, and records the target as
    /// inserted; otherwise hands out nothing.
    pub fn pace(&mut self, elapsed_ns: u64) -> (r: Vec<Request>)
        requires
            old(self).wf(),
            elapsed_ns <= HORIZON_NS,
        ensures
            final(self).wf(),
            final(self).index == old(self).index,
            final(self).peers == old(self).peers,
            final(self).ns_per_request == old(self).ns_per_request,
            final(self).ack_counter == old(self).ack_counter,
            final(self).ack_target == old(self).ack_target,
            old(self).inserted_ns <= final(self).inserted_ns,
            final(self).inserted_ns as int <= old(self).inserted_ns as int + CATCH_UP_NS,
            ({
                let target = spec_pace_target(elapsed_ns as int, old(self).inserted_ns as int);
                let c0 = old(self).request_counter as int;
                let p = old(self).peers as int;
                let ns = old(self).ns_per_request as int;
                if old(self).inserted_ns < target {
                    &&& final(self).inserted_ns == target
                    &&& final(self).request_counter == c0 + r@.len() * p
                    &&& final(self).request_counter * ns >= target
                    &&& forall|i: int| 0 <= i < r@.len() ==> #[trigger] r@[i] == nth_request(c0, p, ns, i)
                            && r@[i].time_ns < target
                } else {
                    &&& r@.len() == 0
                    &&& final(self).inserted_ns == old(self).inserted_ns
                    &&& final(self).request_counter == old(self).request_counter
                }
            }),
    {
        let target = pace_target(elapsed_ns, self.inserted_ns);
        let mut out: Vec<Request> = Vec::new();
        if self.inserted_ns < target {
            let ghost c0 = self.request_counter as int;
            let p = self.peers;
            let ns = self.ns_per_request;
            while self.request_counter * ns < target
                invariant
                    self.wf(),
                    p == self.peers,
                    ns == self.ns_per_request,
                    self.index == old(self).index,
                    self.peers == old(self).peers,
                    self.ns_per_request == old(self).ns_per_request,
                    self.ack_counter == old(self).ack_counter,
                    self.ack_target == old(self).ack_target,
                    self.inserted_ns == old(self).inserted_ns,
                    c0 == old(self).request_counter,
                    target <= HORIZON_NS,
                    self.request_counter == c0 + out@.len() * p,
                    forall|i: int| 0 <= i < out@.len() ==> #[trigger] out@[i] == nth_request(c0, p as int, ns as int, i)
                        && out@[i].time_ns < target,
                decreases 2 * HORIZON_NS - self.request_counter * ns,
            {
                let k = self.request_counter;
                let t = if (k / p) % 2 == 0 {
                    Target::Graph
                } else {
                    Target::Query
                };
                let ghost old_out = out@;
                out.push(Request { counter: k, time_ns: k * ns, target: t });
                proof {
                    assert(k < HORIZON_NS && p <= HORIZON_NS && p * ns >= 1) by (nonlinear_arith)
                        requires k * ns < target, target <= HORIZON_NS, ns >= 1, p >= 1, p * ns <= HORIZON_NS;
                    assert((k + p) * ns == k * ns + p * ns) by (nonlinear_arith);
                    assert(((k + p) as int) % (p as int) == (k as int) % (p as int)) by {
                        vstd::arithmetic::div_mod::lemma_mod_add_multiples_vanish(k as int, p as int);
                    }
                    assert(out@[old_out.len() as int] == nth_request(c0, p as int, ns as int, old_out.len() as int));
                    assert(c0 + (old_out.len() + 1) * p == k + p) by (nonlinear_arith)
                        requires k == c0 + old_out.len() * p;
                }
                self.request_counter = k + p;
            }
            self.inserted_ns = target;
        }
        out
    }

    /// Takes in acknowledgements: every request not yet acknowledged whose
    /// issue time lies below the watermark `acknowledged_ns`, up to the run's
    /// target, is acknowledged at wall-clock time `elapsed_ns`. Returns the
    /// latencies of those past the first half of the run, in order.
    pub fn acknowledge(&mut self, acknowledged_ns: u64, elapsed_ns: u64) -> (r: Vec<u64>)
        requires
            old(self).wf(),
            acknowledged_ns <= elapsed_ns,
            acknowledged_ns <= HORIZON_NS,
        ensures
            final(self).wf(),
            final(self).index == old(self).index,
            final(self).peers == old(self).peers,
            final(self).ns_per_request == old(self).ns_per_request,
            final(self).request_counter == old(self).request_counter,
            final(self).ack_target == old(self).ack_target,
            final(self).inserted_ns == old(self).inserted_ns,
            ({
                let a0 = old(self).ack_counter as int;
                let p = old(self).peers as int;
                let ns = old(self).ns_per_request as int;
                let goal = old(self).ack_target as int;
                exists|n: int| #![trigger retained(a0, p, ns, goal, elapsed_ns as int, n)]
                    0 <= n
                    && final(self).ack_counter == a0 + n * p
                    && (forall|i: int| 0 <= i < n ==> #[trigger] (a0 + i * p) < goal
                        && (a0 + i * p) * ns < acknowledged_ns)
                    && !(final(self).ack_counter < goal && final(self).ack_counter * ns < acknowledged_ns)
                    && r@ == retained(a0, p, ns, goal, elapsed_ns as int, n)
            }),
    {
        let ghost a0 = self.ack_counter as int;
        let ghost mut n: int = 0;
        let p = self.peers;
        let ns = self.ns_per_request;
        let goal = self.ack_target;
        let mut out: Vec<u64> = Vec::new();
        while self.ack_counter < goal && self.ack_counter * ns < acknowledged_ns
            invariant
                self.wf(),
                p == self.peers,
                ns == self.ns_per_request,
                goal == self.ack_target,
                self.index == old(self).index,
                self.peers == old(self).peers,
                self.ns_per_request == old(self).ns_per_request,
                self.request_counter == old(self).request_counter,
                self.ack_target == old(self).ack_target,
                self.inserted_ns == old(self).inserted_ns,
                a0 == old(self).ack_counter,
                acknowledged_ns <= elapsed_ns,
                acknowledged_ns <= HORIZON_NS,
                0 <= n,
                self.ack_counter == a0 + n * p,
                forall|i: int| 0 <= i < n ==> #[trigger] (a0 + i * p) < goal && (a0 + i * p) * ns < acknowledged_ns,
                out@ == retained(a0, p as int, ns as int, goal as int, elapsed_ns as int, n),
            decreases 2 * HORIZON_NS - self.ack_counter * ns,
        {
            let k = self.ack_counter;
            let requested_at = k * ns;
            if k > goal / 2 {
                out.push(elapsed_ns - requested_at);
            }
            proof {
                assert(k < HORIZON_NS && p <= HORIZON_NS && p * ns >= 1) by (nonlinear_arith)
                    requires k * ns < acknowledged_ns, acknowledged_ns <= HORIZON_NS, ns >= 1, p >= 1, p * ns <= HORIZON_NS;
                assert((k + p) * ns == k * ns + p * ns) by (nonlinear_arith);
                assert(((k + p) as int) % (p as int) == (k as int) % (p as int)) by {
                    vstd::arithmetic::div_mod::lemma_mod_add_multiples_vanish(k as int, p as int);
                }
                assert(a0 + (n + 1) * p == k + p) by (nonlinear_arith)
                    requires k == a0 + n * p;
                assert(a0 + n * p == k);
                n = n + 1;
            }
            self.ack_counter = k + p;
        }
        out
    }
}

} // verus!
