//! The sample channel: a bounded FIFO of samples that overwrites its oldest
//! entry when full, so the newest data always gets through.
use vstd::prelude::*;
use ringbuf::Rb;
use crate::MAX_SAMPLES;

verus! {

/// A bounded first-in first-out ring of samples, kept in a `ringbuf::HeapRb`.
#[verifier::external_body]
pub struct SampleRing {
    rb: ringbuf::HeapRb<i32>,
}

/// The samples held by the ring, oldest first.
pub uninterp spec fn ring_items(r: SampleRing) -> Seq<i32>;

/// The fixed capacity the ring was made with.
pub uninterp spec fn ring_capacity(r: SampleRing) -> nat;

impl SampleRing {
    /// The ring holds no more than its capacity, which is positive.
    pub open spec fn inv(&self) -> bool {
        &&& 0 < ring_capacity(*self)
        &&& ring_items(*self).len() <= ring_capacity(*self)
    }

    pub open spec fn items(&self) -> Seq<i32> {
        ring_items(*self)
    }

    pub open spec fn capacity(&self) -> nat {
        ring_capacity(*self)
    }

    /// Relies on `HeapRb::new`: an empty ring of the given capacity (it panics
    /// on a zero capacity).
    #[verifier::external_body]
    pub(crate) fn allocate(capacity: usize) -> (r: SampleRing)
        requires
            capacity > 0,
        ensures
            r.inv(),
            ring_items(r) == Seq::<i32>::empty(),
            ring_capacity(r) == capacity,
    {
        SampleRing { rb: ringbuf::HeapRb::new(capacity) }
    }

    /// Relies on `Rb::push_overwrite`: when the ring is full the oldest item
    /// is popped and handed back, then the new item is appended.
    #[verifier::external_body]
    pub(crate) fn push_overwrite(&mut self, x: i32) -> (r: Option<i32>)
        requires
            old(self).inv(),
        ensures
            final(self).inv(),
            ring_capacity(*final(self)) == ring_capacity(*old(self)),
            ring_items(*old(self)).len() < ring_capacity(*old(self)) ==> {
                &&& r == None::<i32>
                &&& ring_items(*final(self)) == ring_items(*old(self)).push(x)
            },
            ring_items(*old(self)).len() == ring_capacity(*old(self)) ==> {
                &&& r == Some(ring_items(*old(self))[0])
                &&& ring_items(*final(self)) == ring_items(*old(self)).drop_first().push(x)
            },
    {
        self.rb.push_overwrite(x)
    }

    /// Relies on `Rb::pop`: removes and returns the oldest item, or `None`
    /// when the ring is empty.
    #[verifier::external_body]
    pub(crate) fn pop(&mut self) -> (r: Option<i32>)
        requires
            old(self).inv(),
        ensures
            final(self).inv(),
            ring_capacity(*final(self)) == ring_capacity(*old(self)),
            ring_items(*old(self)).len() == 0 ==> {
                &&& r == None::<i32>
                &&& ring_items(*final(self)) == ring_items(*old(self))
            },
            ring_items(*old(self)).len() > 0 ==> {
                &&& r == Some(ring_items(*old(self))[0])
                &&& ring_items(*final(self)) == ring_items(*old(self)).drop_first()
            },
    {
        self.rb.pop()
    }
}

/// What a ring of capacity `cap` keeps of the samples `s` pushed in order:
/// the last `cap` of them.
pub open spec fn keep_latest(s: Seq<i32>, cap: int) -> Seq<i32> {
    if s.len() <= cap {
        s
    } else {
        s.subrange(s.len() - cap, s.len() as int)
    }
}

proof fn lemma_keep_latest_push(t: Seq<i32>, x: i32, cap: int)
    requires
        cap > 0,
    ensures
        keep_latest(t, cap).len() < cap ==> keep_latest(t.push(x), cap) == keep_latest(
            t,
            cap,
        ).push(x),
        keep_latest(t, cap).len() == cap ==> keep_latest(t.push(x), cap) == keep_latest(
            t,
            cap,
        ).drop_first().push(x),
        keep_latest(t, cap).len() <= cap,
        keep_latest(t, cap).len() < cap <==> t.len() < cap,
{
    if t.len() >= cap {
        assert(keep_latest(t.push(x), cap) =~= keep_latest(t, cap).drop_first().push(x));
    }
}

/// The channel between capture and render: an empty ring of `MAX_SAMPLES`.
pub fn sample_channel() -> (r: SampleRing)
    ensures
        r.inv(),
        r.items() == Seq::<i32>::empty(),
        r.capacity() == MAX_SAMPLES,
{
    SampleRing::allocate(MAX_SAMPLES)
}

/// Pushes every sample of `data` into the ring without blocking. When the ring
/// is full its oldest sample makes room, so the ring ends up with the latest
/// samples. Returns whether any sample was overwritten, that is, whether the
/// reader fell behind.
pub fn capture_samples(ring: &mut SampleRing, data: &[i32]) -> (fell_behind: bool)
    requires
        old(ring).inv(),
    ensures
        final(ring).inv(),
        final(ring).capacity() == old(ring).capacity(),
        final(ring).items() == keep_latest(old(ring).items() + data@, old(ring).capacity() as int),
        fell_behind == (old(ring).items().len() + data@.len() > old(ring).capacity()),
{
    let ghost start = ring.items();
    let ghost cap = ring.capacity() as int;
    assert(start + data@.subrange(0, 0) =~= start);
    let mut fell_behind = false;
    let mut i: usize = 0;
    while i < data.len()
        invariant
            i <= data@.len(),
            ring.inv(),
            ring.capacity() == cap,
            start.len() <= cap,
            ring.items() == keep_latest(start + data@.subrange(0, i as int), cap),
            fell_behind == (start.len() + i > cap),
        decreases data@.len() - i,
    {
        let ghost t = start + data@.subrange(0, i as int);
        proof {
            lemma_keep_latest_push(t, data@[i as int], cap);
            assert(start + data@.subrange(0, i + 1) =~= t.push(data@[i as int]));
        }
        let dropped = ring.push_overwrite(data[i]);
        if dropped.is_some() {
            fell_behind = true;
        }
        i += 1;
    }
    assert(data@.subrange(0, data@.len() as int) =~= data@);
    fell_behind
}

/// A burst of at least `cap` samples leaves the ring holding exactly the last
/// `cap` of the burst, whatever it held before; a drain of up to `cap` samples
/// then hands all of them over.
pub proof fn lemma_burst_keeps_latest(start: Seq<i32>, data: Seq<i32>, cap: int)
    requires
        0 < cap <= data.len(),
        start.len() <= cap,
    ensures
        keep_latest(start + data, cap) == data.subrange(data.len() - cap, data.len() as int),
        keep_latest(start + data, cap).len() == cap,
{
    assert(keep_latest(start + data, cap) =~= data.subrange(data.len() - cap, data.len() as int));
}

} // verus!
