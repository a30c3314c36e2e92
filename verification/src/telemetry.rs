//! Telemetry buffer: a bounded, time-ordered sliding window of scalar
//! samples, read by the renderer once per frame. The wire carries only a
//! bare value, so the buffer assigns each accepted sample a synthetic
//! timestamp from a local counter; when the window is full, inserting
//! evicts the oldest sample.

use vstd::prelude::*;
use crate::value::Value;

verus! {

/// One timestamped scalar destined for the plot. The timestamp is a
/// tick count assigned by the buffer; the renderer scales it to seconds.
#[derive(Clone, Copy, Debug, PartialEq, Eq, Structural)]
pub struct Sample {
    pub timestamp: u64,
    pub value: Value,
}

/// The capacity-bounded, FIFO-eviction telemetry store.
pub struct TelemetryBuffer {
    samples: Vec<Sample>,
    capacity: usize,
    next_timestamp: u64,
}

impl View for TelemetryBuffer {
    type V = Seq<Sample>;

    /// The stored samples, oldest first.
    closed spec fn view(&self) -> Seq<Sample> {
        self.samples@
    }
}

impl TelemetryBuffer {
    /// The fixed maximum number of samples the buffer may hold.
    pub closed spec fn spec_capacity(self) -> int {
        self.capacity as int
    }

    /// The timestamp the next accepted sample will carry.
    pub closed spec fn spec_next_timestamp(self) -> u64 {
        self.next_timestamp
    }

    /// The buffer's invariant: it never exceeds its capacity, its
    /// timestamps grow strictly in insertion order, and all of them lie
    /// below the counter.
    pub closed spec fn wf(self) -> bool {
        &&& self.capacity >= 1
        &&& self@.len() <= self.capacity
        &&& forall|i: int, j: int|
            0 <= i < j < self@.len() ==> self@[i].timestamp < self@[j].timestamp
        &&& forall|i: int| 0 <= i < self@.len() ==> self@[i].timestamp < self.next_timestamp
    }

    /// An empty buffer that will hold at most `capacity` samples and
    /// stamp the first accepted one with tick 1.
    pub fn new(capacity: usize) -> (b: TelemetryBuffer)
        requires
            capacity >= 1,
        ensures
            b.wf(),
            b@ == Seq::<Sample>::empty(),
            b.spec_capacity() == capacity,
            b.spec_next_timestamp() == 1u64,
    {
        TelemetryBuffer { samples: Vec::new(), capacity, next_timestamp: 1 }
    }

    /// How many samples the buffer holds now.
    pub fn len(&self) -> (n: usize)
        ensures
            n == self@.len(),
    {
        self.samples.len()
    }

    /// The fixed capacity.
    pub fn capacity(&self) -> (c: usize)
        ensures
            c == self.spec_capacity(),
    {
        self.capacity
    }

    /// Whether the timestamp counter can still grow; exhausting it would
    /// take 2^64 - 1 accepted samples.
    pub fn has_timestamp_headroom(&self) -> (r: bool)
        ensures
            r == (self.spec_next_timestamp() < u64::MAX),
    {
        self.next_timestamp < u64::MAX
    }

    /// The sample at position `i`, oldest first.
    pub fn get(&self, i: usize) -> (s: Sample)
        requires
            i < self@.len(),
        ensures
            s == self@[i as int],
    {
        self.samples[i]
    }

    /// Accept one sample: stamp it with the counter, append it, and when
    /// the buffer is already full, evict the oldest sample first.
    pub fn push(&mut self, value: Value)
        requires
            old(self).wf(),
            old(self).spec_next_timestamp() < u64::MAX,
        ensures
            final(self).wf(),
            final(self).spec_capacity() == old(self).spec_capacity(),
            final(self).spec_next_timestamp() == old(self).spec_next_timestamp() + 1,
            ({
                let stamped = Sample { timestamp: old(self).spec_next_timestamp(), value };
                if old(self)@.len() < old(self).spec_capacity() {
                    final(self)@ == old(self)@.push(stamped)
                } else {
                    final(self)@ == old(self)@.drop_first().push(stamped)
                }
            }),
    {
        if self.samples.len() >= self.capacity {
            self.samples.remove(0);
            proof {
                assert(self.samples@ =~= old(self)@.drop_first());
            }
        }
        let stamped = Sample { timestamp: self.next_timestamp, value };
        self.samples.push(stamped);
        self.next_timestamp = self.next_timestamp + 1;
    }

    /// A copy of the current window, oldest first: the lazily
    /// materialized sequence the renderer reads each cycle.
    pub fn series(&self) -> (r: Vec<Sample>)
        ensures
            r@ == self@,
    {
        let mut r: Vec<Sample> = Vec::new();
        let mut i: usize = 0;
        while i < self.samples.len()
            invariant
                i <= self@.len(),
                self@ == self.samples@,
                r@ == self@.take(i as int),
            decreases self@.len() - i,
        {
            r.push(self.samples[i]);
            proof {
                assert(self@.take(i as int).push(self@[i as int]) =~= self@.take(i + 1));
            }
            i = i + 1;
        }
        proof {
            assert(self@.take(self@.len() as int) =~= self@);
        }
        r
    }
}

/// The buffer never exceeds its configured capacity.
pub proof fn lemma_buffer_within_capacity(b: TelemetryBuffer)
    requires
        b.wf(),
    ensures
        b@.len() <= b.spec_capacity(),
{
}

/// Sample timestamps are strictly increasing in insertion order.
pub proof fn lemma_timestamps_strictly_increasing(b: TelemetryBuffer, i: int, j: int)
    requires
        b.wf(),
        0 <= i < j < b@.len(),
    ensures
        b@[i].timestamp < b@[j].timestamp,
{
}

} // verus!
