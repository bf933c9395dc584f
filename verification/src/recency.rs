//! Insertion order of nodes, on which recency-weighted distances are based.
use vstd::prelude::*;

verus! {

/// The stamps after an insertion of `node` at time `now`: the table grows
/// with zero stamps to hold `node`, whose stamp becomes `now`.
pub open spec fn stamped(stamps: Seq<u64>, node: nat, now: u64) -> Seq<u64> {
    let grown = if node < stamps.len() {
        stamps
    } else {
        stamps + Seq::new((node + 1 - stamps.len()) as nat, |i: int| 0u64)
    };
    grown.update(node as int, now)
}

/// A logical clock stamped on each inserted node.
pub struct InsertionClock {
    insertion_times: Vec<u64>,
    current_time: u64,
}

impl InsertionClock {
    /// Insertion time of each node (0 for a node never inserted).
    pub closed spec fn stamps(&self) -> Seq<u64> {
        self.insertion_times@
    }

    /// The time the next insertion gets.
    pub closed spec fn now(&self) -> u64 {
        self.current_time
    }

    /// A clock at time 0 with room for `initial_capacity` nodes.
    pub fn new(initial_capacity: usize) -> (res: Self)
        ensures
            res.stamps() == Seq::new(initial_capacity as nat, |i: int| 0u64),
            res.now() == 0,
    {
        let insertion_times = vec![0u64; initial_capacity];
        let res = InsertionClock { insertion_times, current_time: 0 };
        assert(res.stamps() =~= Seq::new(initial_capacity as nat, |i: int| 0u64));
        res
    }

    /// Record the insertion of `node` at the current time, then advance the
    /// clock.
    pub fn record_insertion(&mut self, node: usize)
        requires
            old(self).now() < u64::MAX,
            node < usize::MAX,
        ensures
            final(self).now() == old(self).now() + 1,
            final(self).stamps() == stamped(old(self).stamps(), node as nat, old(self).now()),
    {
        let time = self.current_time;
        self.current_time = self.current_time + 1;
        if node >= self.insertion_times.len() {
            let ghost before = self.insertion_times@;
            self.insertion_times.resize(node + 1, 0);
            proof {
                assert forall|i: int| before.len() <= i < node + 1 implies self.insertion_times@[i] == 0 by {
                    assert(cloned::<u64>(0u64, self.insertion_times@[i]));
                }
                assert(self.insertion_times@ =~= before + Seq::new(
                    (node + 1 - before.len()) as nat,
                    |i: int| 0u64,
                ));
            }
        }
        self.insertion_times.set(node, time);
    }

    /// The time the next insertion gets.
    pub fn current_time(&self) -> (res: u64)
        ensures
            res == self.now(),
    {
        self.current_time
    }

    /// Time since `node` was inserted: zero when the clock has not moved
    /// past its stamp (a node never inserted counts as inserted at time 0).
    pub fn elapsed(&self, node: usize) -> (res: u64)
        ensures
            ({
                let inserted = if (node as int) < self.stamps().len() {
                    self.stamps()[node as int]
                } else {
                    0
                };
                res == if self.now() <= inserted {
                    0
                } else {
                    self.now() - inserted
                }
            }),
    {
        let inserted = if node < self.insertion_times.len() {
            self.insertion_times[node]
        } else {
            0
        };
        if self.current_time <= inserted {
            0
        } else {
            self.current_time - inserted
        }
    }
}

} // verus!
