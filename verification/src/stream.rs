use vstd::prelude::*;

verus! {

/// The times of `events` never fall, and none is before `start`.
pub open spec fn in_order(start: u64, events: Seq<(u64, u64, u64)>) -> bool {
    &&& forall|i: int| 0 <= i < events.len() ==> start <= (#[trigger] events[i]).2
    &&& forall|i: int, j: int|
        0 <= i <= j < events.len() ==> (#[trigger] events[i]).2 <= (#[trigger] events[j]).2
}

/// Every one of `events` happens at `time`.
pub open spec fn at_tick(events: Seq<(u64, u64, u64)>, time: u64) -> bool {
    forall|i: int| 0 <= i < events.len() ==> (#[trigger] events[i]).2 == time
}

/// The edges of `events`, in order.
pub open spec fn edges_of(events: Seq<(u64, u64, u64)>) -> Seq<(u64, u64)> {
    Seq::new(events.len(), |i: int| (events[i].0, events[i].1))
}

/// The sources of `events`, in order.
pub open spec fn sources_of(events: Seq<(u64, u64, u64)>) -> Seq<u64> {
    Seq::new(events.len(), |i: int| events[i].0)
}

/// The destinations of `events`, in order.
pub open spec fn dests_of(events: Seq<(u64, u64, u64)>) -> Seq<u64> {
    Seq::new(events.len(), |i: int| events[i].1)
}

} // verus!
