use vstd::prelude::*;

verus! {

/// One point of the series: a timestamp in seconds since the epoch and a
/// price in cents.
#[derive(Clone, Copy, Debug, PartialEq, Eq, Structural)]
pub struct Sample {
    pub timestamp: u64,
    pub price_cents: u32,
}

/// Timestamps strictly increase along `s`: the series is sorted and keyed
/// by timestamp.
pub open spec fn strictly_sorted(s: Seq<Sample>) -> bool {
    forall|i: int, j: int| 0 <= i < j < s.len() ==> s[i].timestamp < s[j].timestamp
}

/// Some sample of `s` carries timestamp `t`.
pub open spec fn has_timestamp(s: Seq<Sample>, t: u64) -> bool {
    exists|i: int| 0 <= i < s.len() && #[trigger] s[i].timestamp == t
}

} // verus!
