use vstd::prelude::*;

use crate::sample::{Sample, strictly_sorted, has_timestamp};

verus! {

/// The series held in memory: samples keyed by timestamp, kept in
/// ascending order. Samples are only ever added.
pub struct PriceHistory {
    samples: Vec<Sample>,
}

/// What `insert_if_absent` does: a sample whose timestamp is new is added,
/// and nothing else changes; a known timestamp leaves the series as it was.
pub open spec fn insert_post(before: Seq<Sample>, s: Sample, added: bool, after: Seq<Sample>) -> bool {
    &&& added == !has_timestamp(before, s.timestamp)
    &&& strictly_sorted(after)
    &&& added ==> after.len() == before.len() + 1
    &&& !added ==> after == before
    &&& forall|x: Sample| #[trigger] after.contains(x) <==> (before.contains(x) || (added && x == s))
}

impl View for PriceHistory {
    type V = Seq<Sample>;

    closed spec fn view(&self) -> Seq<Sample> {
        self.samples@
    }
}

impl PriceHistory {
    pub open spec fn wf(&self) -> bool {
        strictly_sorted(self@)
    }

    /// An empty series.
    pub fn new() -> (r: PriceHistory)
        ensures
            r.wf(),
            r@ == Seq::<Sample>::empty(),
    {
        PriceHistory { samples: Vec::new() }
    }

    /// The number of samples held.
    pub fn len(&self) -> (r: usize)
        ensures
            r == self@.len(),
    {
        self.samples.len()
    }

    /// Whether any sample is held.
    pub fn exists_any(&self) -> (r: bool)
        ensures
            r == (self@.len() > 0),
    {
        self.samples.len() > 0
    }

    /// The samples, by ascending timestamp.
    pub fn samples(&self) -> (r: &Vec<Sample>)
        ensures
            r@ == self@,
    {
        &self.samples
    }

    /// The latest timestamp held, if any.
    pub fn max_timestamp(&self) -> (r: Option<u64>)
        requires
            self.wf(),
        ensures
            self@.len() == 0 ==> r.is_none(),
            self@.len() > 0 ==> r == Some(self@.last().timestamp),
            forall|i: int| 0 <= i < self@.len() ==> r.is_some() && self@[i].timestamp <= r.unwrap(),
    {
        let n = self.samples.len();
        if n == 0 {
            None
        } else {
            Some(self.samples[n - 1].timestamp)
        }
    }

    /// Adds `s` unless a sample with its timestamp is already held; returns
    /// whether it was added. A repeated timestamp is no error.
    pub fn insert_if_absent(&mut self, s: Sample) -> (added: bool)
        requires
            old(self).wf(),
        ensures
            final(self).wf(),
            insert_post(old(self)@, s, added, final(self)@),
    {
        let n = self.samples.len();
        if n == 0 || self.samples[n - 1].timestamp < s.timestamp {
            let ghost before = self@;
            proof {
                assert forall|j: int| 0 <= j < n implies #[trigger] before[j].timestamp != s.timestamp by {
                    assert(before[j].timestamp <= before[n - 1].timestamp);
                }
            }
            self.samples.push(s);
            proof {
                let after = self@;
                assert forall|x: Sample| #[trigger] after.contains(x) <==> (before.contains(x) || x == s) by {
                    if after.contains(x) {
                        let k = choose|k: int| 0 <= k < after.len() && after[k] == x;
                        if k < n {
                            assert(before[k] == x);
                        }
                    }
                    if before.contains(x) {
                        let k = choose|k: int| 0 <= k < before.len() && before[k] == x;
                        assert(after[k] == x);
                    }
                    if x == s {
                        assert(after[n as int] == x);
                    }
                }
            }
            return true;
        }
        let mut i: usize = 0;
        while i < n && self.samples[i].timestamp < s.timestamp
            invariant
                n == self.samples@.len(),
                strictly_sorted(self@),
                i <= n,
                forall|j: int| 0 <= j < i ==> self@[j].timestamp < s.timestamp,
            decreases n - i,
        {
            i = i + 1;
        }
        if i < n && self.samples[i].timestamp == s.timestamp {
            assert(has_timestamp(self@, s.timestamp));
            return false;
        }
        proof {
            assert forall|j: int| 0 <= j < n implies #[trigger] self@[j].timestamp != s.timestamp by {
                if j >= i {
                    assert(self@[i as int].timestamp > s.timestamp);
                }
            }
            assert(!has_timestamp(self@, s.timestamp));
            self@.insert_ensures(i as int, s);
        }
        let ghost before = self@;
        self.samples.insert(i, s);
        proof {
            let after = self@;
            assert forall|x: Sample| #[trigger] after.contains(x) <==> (before.contains(x) || x == s) by {
                if after.contains(x) {
                    let k = choose|k: int| 0 <= k < after.len() && after[k] == x;
                    if k < i {
                        assert(before[k] == x);
                    } else if k > i {
                        assert(before[k - 1] == x);
                    }
                }
                if before.contains(x) {
                    let k = choose|k: int| 0 <= k < before.len() && before[k] == x;
                    if k < i {
                        assert(after[k] == x);
                    } else {
                        assert(after[k + 1] == x);
                    }
                }
                if x == s {
                    assert(after[i as int] == x);
                }
            }
            assert forall|a: int, b: int| 0 <= a < b < after.len() implies after[a].timestamp < after[b].timestamp by {
                if b < i {
                } else if b == i {
                } else if a < i {
                    assert(after[b] == before[b - 1]);
                } else if a == i {
                    assert(after[b] == before[b - 1]);
                    assert(before[i as int].timestamp > s.timestamp || i == b - 1);
                } else {
                    assert(after[a] == before[a - 1]);
                    assert(after[b] == before[b - 1]);
                }
            }
        }
        true
    }
}

/// Inserting the same sample twice: the second insertion adds nothing and
/// leaves the series, and so its number of samples, as the first left it.
pub proof fn lemma_insert_if_absent_idempotent(
    first: Seq<Sample>,
    second: Seq<Sample>,
    third: Seq<Sample>,
    s: Sample,
    added_first: bool,
    added_second: bool,
)
    requires
        insert_post(first, s, added_first, second),
        insert_post(second, s, added_second, third),
    ensures
        !added_second,
        third == second,
        third.len() == second.len(),
{
    if added_first {
        assert(second.contains(s));
        let k = choose|k: int| 0 <= k < second.len() && second[k] == s;
        assert(second[k].timestamp == s.timestamp);
    }
}

} // verus!
