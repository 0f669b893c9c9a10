//! The queues of task keys that are ready to resume.
//!
//! Keys woken on the owning thread go into a queue that only this value
//! touches, so what it holds is known exactly. Wake signals from other
//! threads push through a `ReadyHandle` into a shared queue; what a pop
//! finds there is not fixed by this thread's own calls.

use crossbeam_queue::SegQueue;
use std::sync::Arc;
use vstd::prelude::*;

verus! {

#[verifier::external_type_specification]
#[verifier::external_body]
#[verifier::reject_recursive_types(T)]
pub struct ExSegQueue<T>(SegQueue<T>);

/// The keys in a queue, head first.
pub uninterp spec fn queued(q: SegQueue<u64>) -> Seq<u64>;

/// Relies on `SegQueue::new`: a new queue is empty.
#[verifier::external_body]
fn queue_new() -> (r: SegQueue<u64>)
    ensures
        queued(r) == Seq::<u64>::empty(),
{
    SegQueue::new()
}

/// Relies on `SegQueue::push_mut`: with exclusive access, appends at the tail.
#[verifier::external_body]
fn queue_push_mut(q: &mut SegQueue<u64>, key: u64)
    ensures
        queued(*final(q)) == queued(*old(q)).push(key),
{
    q.push_mut(key)
}

/// Relies on `SegQueue::pop_mut`: with exclusive access, takes the head, or
/// returns `None` when the queue is empty.
#[verifier::external_body]
fn queue_pop_mut(q: &mut SegQueue<u64>) -> (r: Option<u64>)
    ensures
        queued(*old(q)).len() == 0 ==> r is None && queued(*final(q)) == queued(*old(q)),
        queued(*old(q)).len() > 0 ==> r == Some(queued(*old(q))[0]) && queued(*final(q))
            == queued(*old(q)).drop_first(),
{
    q.pop_mut()
}

/// Relies on `SegQueue::push`: appends at the tail of a shared queue; any
/// thread may push.
#[verifier::external_body]
fn queue_push(q: &SegQueue<u64>, key: u64)
{
    q.push(key)
}

/// Relies on `SegQueue::pop`: takes the head of a shared queue if there is
/// one; other threads may have pushed meanwhile, so nothing is promised of it.
#[verifier::external_body]
fn queue_pop(q: &SegQueue<u64>) -> (r: Option<u64>)
{
    q.pop()
}

/// Relies on `SegQueue::len`: the number of keys in a shared queue at some
/// moment.
#[verifier::external_body]
fn queue_len(q: &SegQueue<u64>) -> (r: usize)
{
    q.len()
}

/// A push-only handle on the shared queue, for wake signals from any thread.
#[derive(Clone)]
pub struct ReadyHandle {
    queue: Arc<SegQueue<u64>>,
}

impl ReadyHandle {
    /// Marks a task ready from any thread.
    pub fn wake(&self, key: u64) {
        queue_push(&self.queue, key)
    }
}

/// Ready task keys: those woken on the owning thread, then those pushed
/// through handles.
pub struct ReadyQueue {
    local: SegQueue<u64>,
    shared: Arc<SegQueue<u64>>,
}

impl ReadyQueue {
    /// The keys woken through `wake` and not taken since, oldest first.
    pub closed spec fn woken(&self) -> Seq<u64> {
        queued(self.local)
    }

    pub fn new() -> (r: ReadyQueue)
        ensures
            r.woken() == Seq::<u64>::empty(),
    {
        ReadyQueue { local: queue_new(), shared: Arc::new(queue_new()) }
    }

    /// A push-only handle on the shared queue.
    pub fn handle(&self) -> (r: ReadyHandle)
    {
        ReadyHandle { queue: self.shared.clone() }
    }

    /// Marks a task ready.
    pub fn wake(&mut self, key: u64)
        ensures
            final(self).woken() == old(self).woken().push(key),
    {
        queue_push_mut(&mut self.local, key)
    }

    /// Takes the keys that are ready now: every key woken through `wake`, in
    /// the order they were woken, then at most as many keys from the shared
    /// queue as it held when the drain of it began (keys pushed during the
    /// drain wait for the next call, so the call ends even while other
    /// threads keep pushing).
    pub fn take_ready(&mut self) -> (r: Vec<u64>)
        ensures
            r@.len() >= old(self).woken().len(),
            r@.subrange(0, old(self).woken().len() as int) == old(self).woken(),
            final(self).woken() == Seq::<u64>::empty(),
    {
        let ghost start = queued(self.local);
        let mut out: Vec<u64> = Vec::new();
        loop
            invariant
                start == out@ + queued(self.local),
            ensures
                out@ == start,
                queued(self.local) == Seq::<u64>::empty(),
            decreases queued(self.local).len(),
        {
            let ghost before = queued(self.local);
            match queue_pop_mut(&mut self.local) {
                Some(k) => {
                    out.push(k);
                    proof {
                        assert(start =~= out@ + queued(self.local));
                    }
                },
                None => {
                    proof {
                        assert(out@ =~= start);
                        assert(queued(self.local) =~= Seq::<u64>::empty());
                    }
                    break;
                },
            }
        }
        let n = queue_len(&self.shared);
        let mut i: usize = 0;
        while i < n
            invariant
                0 <= i <= n,
                out@.len() >= start.len(),
                out@.subrange(0, start.len() as int) == start,
                queued(self.local) == Seq::<u64>::empty(),
            decreases n - i,
        {
            let ghost before = out@;
            match queue_pop(&self.shared) {
                Some(k) => {
                    out.push(k);
                    proof {
                        assert(out@.subrange(0, start.len() as int) =~= before.subrange(0, start.len() as int));
                    }
                },
                None => {},
            }
            i = i + 1;
        }
        out
    }
}

} // verus!
