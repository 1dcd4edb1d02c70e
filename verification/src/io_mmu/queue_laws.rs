//! What holds of the requests that wait, whoever asks and whoever serves.

use vstd::prelude::*;
use crate::emu_abi::memory::{PageNumber, PagePointer};
use crate::io_mmu::dma_async_flusher;
use crate::io_mmu::dma_async_flusher::{
    listed,
    DequeueStep,
    DmaDeviceId,
    DmaFnCallback,
    EnqueueEntry,
    EnqueueStep,
    FlushError,
    Queue,
    QueueEntry,
    Served,
    SharedDmaPage,
};

verus! {

/// Two requests are for the same page, device and place on the device.
pub open spec fn same_request(one: QueueEntry, other: QueueEntry) -> bool {
    &&& one.owned_page.pointer == other.owned_page.pointer
    &&& one.device == other.device
    &&& one.dev_page_offset == other.dev_page_offset
}

/// The request that waits is for what `entry` asks for.
pub open spec fn serves(waiting: QueueEntry, entry: EnqueueEntry) -> bool {
    &&& waiting.owned_page.pointer == entry.owned_page.pointer
    &&& waiting.device == entry.device
    &&& waiting.dev_page_offset == entry.dev_page_offset
}

/// The callback that `entry` brings along, if any.
pub open spec fn brought(entry: EnqueueEntry) -> Seq<u64> {
    match entry.callback {
        Some(callback) => seq![callback],
        None => seq![],
    }
}

/// `entry` was let in where `before` waited, and `after` waits now.
///
/// Each request that waited keeps its place. A request for what already waits joins the one
/// that waits, and hands its callback over. Any other one waits behind all others.
pub open spec fn lets_in(
    before: Seq<QueueEntry>,
    after: Seq<QueueEntry>,
    entry: EnqueueEntry,
) -> bool {
    &&& after.len() == before.len() + if exists|i: int|
        0 <= i < before.len() && serves(#[trigger] before[i], entry) {
        0int
    } else {
        1int
    }
    &&& forall|i: int|
        0 <= i < before.len() ==> {
            &&& same_request(#[trigger] after[i], before[i])
            &&& listed(after[i].callbacks) == if serves(before[i], entry) {
                listed(before[i].callbacks) + brought(entry)
            } else {
                listed(before[i].callbacks)
            }
        }
    &&& after.len() > before.len() ==> {
        &&& serves(after.last(), entry)
        &&& listed(after.last().callbacks) == brought(entry)
    }
}

/// The same requests wait, in the same order, with the same callbacks.
pub open spec fn same_queue(one: Seq<QueueEntry>, other: Seq<QueueEntry>) -> bool {
    &&& one.len() == other.len()
    &&& forall|i: int|
        0 <= i < one.len() ==> same_request(#[trigger] one[i], other[i]) && listed(
            one[i].callbacks,
        ) == listed(other[i].callbacks)
}

/// `taken` is the request that had waited longest, and all others wait on, each one place
/// further to the front.
pub open spec fn takes_first(
    before: Seq<QueueEntry>,
    after: Seq<QueueEntry>,
    taken: QueueEntry,
    pointer: PagePointer,
) -> bool {
    &&& before.len() == after.len() + 1
    &&& same_request(taken, before[0])
    &&& listed(taken.callbacks) == listed(before[0].callbacks)
    &&& before[0].owned_page.pointer == Some(pointer)
    &&& forall|i: int|
        0 <= i < after.len() ==> same_request(#[trigger] after[i], before[i + 1]) && listed(
            after[i].callbacks,
        ) == listed(before[i + 1].callbacks)
}

/// Nobody waits for what `entry` asks for, and `queue_limit` requests wait already.
pub open spec fn no_room(
    before: Seq<QueueEntry>,
    entry: EnqueueEntry,
    queue_limit: usize,
) -> bool {
    &&& before.len() >= queue_limit
    &&& forall|i: int| 0 <= i < before.len() ==> !serves(#[trigger] before[i], entry)
}

/// What is said of waiting requests as values is said of their fields.
proof fn lemma_keys(queue: Queue)
    requires
        queue.wf(),
    ensures
        queue@.len() == queue.queue@.len(),
        forall|i: int|
            0 <= i < queue.queue@.len() ==> {
                &&& (#[trigger] queue.queue@[i]).owned_page.pointer == Some(queue@[i].key.host_ptr)
                &&& queue.queue@[i].device == queue@[i].key.dev_id
                &&& queue.queue@[i].dev_page_offset == queue@[i].key.dev_page_offset
                &&& listed(queue.queue@[i].callbacks) == queue@[i].callbacks
            },
{
}

/// A key is waited for where a request serves it.
proof fn lemma_waits(queue: Queue, entry: EnqueueEntry)
    requires
        queue.wf(),
        entry.owned_page.pointer is Some,
    ensures
        forall|i: int|
            0 <= i < queue.queue@.len() ==> (serves(#[trigger] queue.queue@[i], entry)
                <==> dma_async_flusher::is_at(queue@, entry.key(), i)),
        dma_async_flusher::waits(queue@, entry.key()) <==> exists|i: int|
            0 <= i < queue.queue@.len() && serves(#[trigger] queue.queue@[i], entry),
        forall|i: int, j: int|
            0 <= i < queue.queue@.len() && 0 <= j < queue.queue@.len() && serves(
                #[trigger] queue.queue@[i],
                entry,
            ) && serves(#[trigger] queue.queue@[j], entry) ==> i == j,
{
    lemma_keys(queue);
    assert forall|i: int| 0 <= i < queue.queue@.len() implies (serves(
        #[trigger] queue.queue@[i],
        entry,
    ) <==> dma_async_flusher::is_at(queue@, entry.key(), i)) by {
        assert(queue.queue@[i].owned_page.pointer == Some(queue@[i].key.host_ptr));
    }
    if dma_async_flusher::waits(queue@, entry.key()) {
        let i = dma_async_flusher::place_of(queue@, entry.key());
        assert(dma_async_flusher::is_at(queue@, entry.key(), i));
        assert(serves(queue.queue@[i], entry));
    }
    assert forall|i: int, j: int|
        0 <= i < queue.queue@.len() && 0 <= j < queue.queue@.len() && serves(
            #[trigger] queue.queue@[i],
            entry,
        ) && serves(#[trigger] queue.queue@[j], entry) implies i == j by {
        assert(queue@[i].key == entry.key());
        assert(queue@[j].key == entry.key());
    }
}

/// What [`dma_async_flusher::let_in`] says, said of the fields of the requests.
proof fn lemma_let_in(before: Queue, after: Queue, entry: EnqueueEntry)
    requires
        before.wf(),
        after.wf(),
        entry.owned_page.pointer is Some,
        after@ == dma_async_flusher::let_in(before@, entry),
    ensures
        lets_in(before.queue@, after.queue@, entry),
{
    lemma_keys(before);
    lemma_keys(after);
    lemma_waits(before, entry);
    let key = entry.key();
    let b = before.queue@;
    let a = after.queue@;
    if dma_async_flusher::waits(before@, key) {
        let place = dma_async_flusher::place_of(before@, key);
        assert(dma_async_flusher::is_at(before@, key, place));
        assert(serves(b[place], entry));
    }
    assert forall|i: int| 0 <= i < b.len() implies {
        &&& same_request(#[trigger] a[i], b[i])
        &&& listed(a[i].callbacks) == if serves(b[i], entry) {
            listed(b[i].callbacks) + brought(entry)
        } else {
            listed(b[i].callbacks)
        }
    } by {
        assert(b[i].owned_page.pointer == Some(before@[i].key.host_ptr));
        assert(a[i].owned_page.pointer == Some(after@[i].key.host_ptr));
        assert(listed(b[i].callbacks) + brought(entry) =~= dma_async_flusher::with_callback(
            listed(b[i].callbacks),
            entry.callback,
        ));
    }
    if a.len() > b.len() {
        assert(a.last().owned_page.pointer == Some(after@.last().key.host_ptr));
        assert(listed(a.last().callbacks) =~= brought(entry));
    }
}

/// Queues with equal requests as values are the same.
proof fn lemma_same(one: Queue, other: Queue)
    requires
        one.wf(),
        other.wf(),
        one@ == other@,
    ensures
        same_queue(one.queue@, other.queue@),
{
    lemma_keys(one);
    lemma_keys(other);
    assert forall|i: int| 0 <= i < one.queue@.len() implies same_request(
        #[trigger] one.queue@[i],
        other.queue@[i],
    ) && listed(one.queue@[i].callbacks) == listed(other.queue@[i].callbacks) by {
        assert(other.queue@[i].owned_page.pointer == Some(other@[i].key.host_ptr));
    }
}

proof fn lemma_takes_first(before: Queue, after: Queue, taken: QueueEntry, pointer: PagePointer)
    requires
        before.wf(),
        after.wf(),
        before@.len() > 0,
        taken@ == before@[0],
        taken.owned_page.pointer == Some(pointer),
        after@ == before@.drop_first(),
    ensures
        takes_first(before.queue@, after.queue@, taken, pointer),
{
    lemma_keys(before);
    lemma_keys(after);
    assert(before.queue@[0].owned_page.pointer == Some(before@[0].key.host_ptr));
    assert forall|i: int| 0 <= i < after.queue@.len() implies same_request(
        #[trigger] after.queue@[i],
        before.queue@[i + 1],
    ) && listed(after.queue@[i].callbacks) == listed(before.queue@[i + 1].callbacks) by {
        assert(before.queue@[i + 1].owned_page.pointer == Some(before@[i + 1].key.host_ptr));
    }
}

/// A request that comes while others wait overtakes none of them: it waits behind all
/// others, or hands its callback to the one that waits for the same already.
///
/// It is refused exactly if it would have to wait and `queue_limit` requests wait already;
/// then it is handed back, and nothing changes.
pub proof fn new_requests_wait_last(
    before: Queue,
    after: Queue,
    entry: EnqueueEntry,
    queue_limit: usize,
    r: Result<(), EnqueueEntry>,
)
    requires
        before.wf(),
        entry.owned_page.pointer is Some,
        exists|queue: &mut Queue|
            *queue == before && *final(queue) == after && #[trigger] call_ensures(
                Queue::enqueue,
                (queue, entry, queue_limit),
                r,
            ),
    ensures
        after.wf(),
        after.base == before.base,
        r is Err <==> no_room(before.queue@, entry, queue_limit),
        r is Ok ==> lets_in(before.queue@, after.queue@, entry),
        r matches Err(back) ==> back == entry && same_queue(after.queue@, before.queue@),
{
    lemma_keys(before);
    lemma_waits(before, entry);
    if r is Ok {
        lemma_let_in(before, after, entry);
    } else {
        lemma_same(after, before);
    }
}

/// The request that has waited longest is taken out, with the pointer of its page and all
/// its callbacks, and the others move up. Nothing is taken exactly if nothing waits.
pub proof fn longest_waiting_request_is_taken(
    before: Queue,
    after: Queue,
    r: Option<(QueueEntry, PagePointer)>,
)
    requires
        before.wf(),
        exists|queue: &mut Queue|
            *queue == before && *final(queue) == after && #[trigger] call_ensures(
                Queue::dequeue,
                (queue,),
                r,
            ),
    ensures
        after.wf(),
        r is None <==> before.queue@.len() == 0,
        // Numbers start anew where nothing waits any more.
        r is Some ==> after.base == if after.queue@.len() == 0 {
            0
        } else {
            before.base + 1
        },
        match r {
            Some((taken, pointer)) => takes_first(before.queue@, after.queue@, taken, pointer),
            None => after.queue@.len() == 0,
        },
{
    match r {
        Some((taken, pointer)) => lemma_takes_first(before, after, taken, pointer),
        None => {},
    }
}

/// A request for a page that was faulted in can be made whenever a number is left for it.
pub proof fn requests_can_be_made(
    queue: &mut Queue,
    entry: EnqueueEntry,
    queue_limit: usize,
)
    requires
        old(queue).wf(),
        entry.owned_page.pointer is Some,
        old(queue).base + old(queue).queue@.len() < u64::MAX,
    ensures
        call_requires(Queue::enqueue, (queue, entry, queue_limit)),
        call_requires(Queue::dequeue, (queue,)),
{
}

/// What is done to a queue.
pub enum QueueCall {
    Enqueue { entry: EnqueueEntry, queue_limit: usize },
    Dequeue,
}

/// How many requests the calls `from .. to` take out.
pub open spec fn taken_out(
    queues: Seq<Queue>,
    calls: Seq<QueueCall>,
    from: nat,
    to: nat,
) -> nat
    decreases to,
{
    if to <= from {
        0
    } else {
        taken_out(queues, calls, from, (to - 1) as nat) + if calls[to - 1] is Dequeue && queues[to
            - 1].queue@.len() > 0 {
            1nat
        } else {
            0nat
        }
    }
}

/// First come, first served: the request at the place `i` is served once the `i` requests in
/// front of it were. Until then it has moved up by as many places as requests were taken out,
/// whatever else was asked for meanwhile.
pub proof fn requests_are_served_in_order(
    queues: Seq<Queue>,
    calls: Seq<QueueCall>,
    from: nat,
    to: nat,
    i: int,
)
    requires
        queues.len() == calls.len() + 1,
        forall|n: int| 0 <= n < queues.len() ==> (#[trigger] queues[n]).wf(),
        // Each call turns one queue into the next.
        forall|n: int|
            0 <= n < calls.len() ==> match #[trigger] calls[n] {
                QueueCall::Enqueue { entry, queue_limit } => entry.owned_page.pointer is Some
                    && exists|queue: &mut Queue, r: Result<(), EnqueueEntry>|
                    *queue == queues[n] && *final(queue) == queues[n + 1]
                        && #[trigger] call_ensures(
                        Queue::enqueue,
                        (queue, entry, queue_limit),
                        r,
                    ),
                QueueCall::Dequeue => exists|
                    queue: &mut Queue,
                    r: Option<(QueueEntry, PagePointer)>,
                |
                    *queue == queues[n] && *final(queue) == queues[n + 1]
                        && #[trigger] call_ensures(Queue::dequeue, (queue,), r),
            },
        from <= to <= calls.len(),
        0 <= i < queues[from as int].queue@.len(),
    ensures
        ({
            let k = i - taken_out(queues, calls, from, to);
            k >= 0 ==> {
                &&& k < queues[to as int].queue@.len()
                &&& same_request(queues[to as int].queue@[k], queues[from as int].queue@[i])
            }
        }),
    decreases to,
{
    if from < to {
        let m = (to - 1) as nat;
        requests_are_served_in_order(queues, calls, from, m, i);
        let before = queues[m as int];
        let after = queues[m as int + 1];
        let k = i - taken_out(queues, calls, from, m);
        match calls[m as int] {
            QueueCall::Enqueue { entry, queue_limit } => {
                let (_, r) = choose|queue: &mut Queue, r: Result<(), EnqueueEntry>|
                    *queue == before && *final(queue) == after && #[trigger] call_ensures(
                        Queue::enqueue,
                        (queue, entry, queue_limit),
                        r,
                    );
                new_requests_wait_last(before, after, entry, queue_limit, r);
                if k >= 0 {
                    assert(same_request(after.queue@[k], before.queue@[k]));
                }
            },
            QueueCall::Dequeue => {
                let (_, r) = choose|queue: &mut Queue, r: Option<(QueueEntry, PagePointer)>|
                    *queue == before && *final(queue) == after && #[trigger] call_ensures(
                        Queue::dequeue,
                        (queue,),
                        r,
                    );
                longest_waiting_request_is_taken(before, after, r);
                if k >= 1 {
                    assert(same_request(after.queue@[k - 1], before.queue@[k - 1 + 1]));
                }
            },
        }
    }
}

/// A request is never made of a worker that is gone; otherwise it is let in, or has to wait
/// where there is no room, and nothing else happens to the queue.
pub proof fn requests_wait_for_room(
    before: Queue,
    after: Queue,
    closed: bool,
    entry: EnqueueEntry,
    queue_limit: usize,
    r: EnqueueStep,
)
    requires
        before.wf(),
        entry.owned_page.pointer is Some,
        exists|queue: &mut Queue|
            *queue == before && *final(queue) == after && #[trigger] call_ensures(
                dma_async_flusher::enqueue_step,
                (queue, closed, entry, queue_limit),
                r,
            ),
    ensures
        after.wf(),
        r is WorkerDied <==> closed,
        !closed ==> (r is Wait <==> no_room(before.queue@, entry, queue_limit)),
        match r {
            EnqueueStep::Enqueued => lets_in(before.queue@, after.queue@, entry),
            EnqueueStep::WorkerDied => same_queue(after.queue@, before.queue@),
            EnqueueStep::Wait(back) => back == entry && same_queue(after.queue@, before.queue@),
        },
{
    lemma_keys(before);
    lemma_waits(before, entry);
    if r is Enqueued {
        lemma_let_in(before, after, entry);
    } else {
        lemma_same(after, before);
    }
}

/// The worker stops exactly if the flusher was closed. Otherwise it serves the request that
/// has waited longest, and waits exactly if there is none.
pub proof fn worker_serves_longest_waiting(
    before: Queue,
    after: Queue,
    closed: bool,
    r: DequeueStep,
)
    requires
        before.wf(),
        exists|queue: &mut Queue|
            *queue == before && *final(queue) == after && #[trigger] call_ensures(
                dma_async_flusher::dequeue_step,
                (queue, closed),
                r,
            ),
    ensures
        after.wf(),
        r is Closed <==> closed,
        !closed ==> (r is Wait <==> before.queue@.len() == 0),
        match r {
            DequeueStep::Serve(taken, pointer) => takes_first(
                before.queue@,
                after.queue@,
                taken,
                pointer,
            ),
            _ => same_queue(after.queue@, before.queue@),
        },
{
    match r {
        DequeueStep::Serve(taken, pointer) => lemma_takes_first(before, after, taken, pointer),
        _ => lemma_same(after, before),
    }
}

/// A page can be asked for exactly if it was faulted in, and the request is for that page,
/// device and place, with that callback.
pub proof fn faulted_in_pages_can_be_asked_for(
    page: SharedDmaPage,
    device: DmaDeviceId,
    page_offset: PageNumber,
    callback: Option<u64>,
    r: Option<EnqueueEntry>,
)
    requires
        call_ensures(dma_async_flusher::request, (page, device, page_offset, callback), r),
    ensures
        r is Some <==> page.pointer is Some,
        r matches Some(entry) ==> {
            &&& entry.owned_page.pointer == page.pointer
            &&& entry.device == device
            &&& entry.dev_page_offset == page_offset
            &&& entry.callback == callback
        },
{
}

/// Everyone who waits for a request is told of it, in the order in which they asked, and all
/// are told the same: success exactly if the device says so, the device's own error where it
/// gives one, and that it panicked where it gives nothing.
pub proof fn everyone_is_told_the_outcome(
    entry: QueueEntry,
    returned: Option<Result<(), anyhow::Error>>,
    r: Served,
)
    requires
        call_ensures(dma_async_flusher::finish, (entry, returned), r),
    ensures
        r.callbacks@ == listed(entry.callbacks),
        r.outcome is Ok <==> returned matches Some(Ok(_)),
        returned matches Some(Err(error)) ==> r.outcome == Err::<(), FlushError>(
            FlushError::Device(error),
        ),
        returned is None <==> r.outcome == Err::<(), FlushError>(FlushError::Panicked),
{
}

/// In a fresh queue nothing waits, and the first request has the number zero. Where nothing else
/// is asked for, 1024 requests may wait.
pub proof fn nothing_waits_at_first(r: Queue, len: usize)
    requires
        call_ensures(Queue::new, (), r),
        call_ensures(Queue::len, (&r,), len),
    ensures
        r.wf(),
        len == 0,
        r.queue@.len() == 0,
        r.base == 0,
        dma_async_flusher::DEFAULT_QUEUE_LIMIT == 1024,
{
}

/// The length of a queue is the number of requests that wait.
pub proof fn length_counts_the_waiting(queue: Queue, len: usize)
    requires
        call_ensures(Queue::len, (&queue,), len),
    ensures
        len == queue.queue@.len(),
{
}

/// The callbacks of a request come out in the order in which they joined it, and the outcome is
/// what the device returned, or that it panicked where it returned nothing.
pub proof fn outcomes_are_what_devices_return(
    entry: QueueEntry,
    callbacks: Vec<u64>,
    returned: Option<Result<(), anyhow::Error>>,
    r: Result<(), FlushError>,
    text: &'static str,
)
    requires
        call_ensures(QueueEntry::into_callbacks, (entry,), callbacks),
        call_ensures(dma_async_flusher::flush_outcome, (returned,), r),
        call_ensures(FlushError::panic_message, (), text),
    ensures
        callbacks@ == listed(entry.callbacks),
        r is Ok <==> returned matches Some(Ok(_)),
        returned matches Some(Err(error)) ==> r == Err::<(), FlushError>(FlushError::Device(error)),
        returned is None <==> r == Err::<(), FlushError>(FlushError::Panicked),
        text@ == "DMA device panicked whilst processing request"@,
{
}

/// A callback is told of success with nothing but that, and of a failure with its error.
pub proof fn callbacks_are_told<F: FnOnce(Result<(), &anyhow::Error>)>(
    callback: F,
    made: DmaFnCallback<F>,
    error: &anyhow::Error,
)
    requires
        call_ensures(DmaFnCallback::<F>::new, (callback,), made),
    ensures
        call_ensures(DmaFnCallback::<F>::on_success, (made,), ()) ==> callback.ensures(
            (Ok::<(), &anyhow::Error>(()),),
            (),
        ),
        call_ensures(DmaFnCallback::<F>::on_failure, (made, error), ()) ==> callback.ensures(
            (Err::<(), &anyhow::Error>(error),),
            (),
        ),
{
}

} // verus!
