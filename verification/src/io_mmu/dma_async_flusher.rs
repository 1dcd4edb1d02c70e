//! The queue of pages that wait to be written back to their devices.
//!
//! A page waits at most once per place on a device: who asks for it again only adds
//! a callback to the request that is waiting.

use std::collections::VecDeque;
use thin_vec::ThinVec;
use vstd::prelude::*;
use crate::emu_abi::memory::{PageNumber, PagePointer};

verus! {

/// A vector whose header lies with its items.
#[verifier::external_type_specification]
#[verifier::external_body]
#[verifier::reject_recursive_types(T)]
pub struct ExThinVec<T>(thin_vec::ThinVec<T>);

/// The callbacks that a list holds, in order.
pub uninterp spec fn listed(callbacks: thin_vec::ThinVec<u64>) -> Seq<u64>;

/// `thin_vec::ThinVec::new`: an empty list.
#[verifier::external_body]
fn no_callbacks() -> (r: ThinVec<u64>)
    ensures
        listed(r) == Seq::<u64>::empty(),
{
    ThinVec::new()
}

/// `thin_vec::ThinVec::push`: puts a callback at the end of the list.
#[verifier::external_body]
fn add_callback(callbacks: &mut ThinVec<u64>, callback: u64)
    ensures
        listed(*final(callbacks)) == listed(*old(callbacks)).push(callback),
{
    callbacks.push(callback)
}

/// `Vec::from` of a `thin_vec::ThinVec`: the same callbacks in the same order.
#[verifier::external_body]
fn into_callbacks(callbacks: ThinVec<u64>) -> (r: Vec<u64>)
    ensures
        r@ == listed(callbacks),
{
    Vec::from(callbacks)
}

/// How many requests may wait where nothing else is asked for.
pub const DEFAULT_QUEUE_LIMIT: usize = 1024;

/// Which device a request is for.
#[derive(Clone, Copy, PartialEq, Eq, Structural, Debug)]
pub struct DmaDeviceId(pub usize);

/// A page that may be written back: the pointer of its bytes, once it was faulted in.
#[derive(Clone, Copy, PartialEq, Eq, Structural, Debug)]
pub struct SharedDmaPage {
    pub pointer: Option<PagePointer>,
}

impl SharedDmaPage {
    /// The page's bytes, if it was faulted in.
    pub fn get(&self) -> (r: Option<PagePointer>)
        ensures
            r == self.pointer,
    {
        self.pointer
    }
}

/// A request that waits. Callbacks are told apart by number.
pub struct QueueEntry {
    pub owned_page: SharedDmaPage,
    pub device: DmaDeviceId,
    pub dev_page_offset: PageNumber,
    pub callbacks: ThinVec<u64>,
}

/// A request as it is made.
#[derive(Clone, Copy, PartialEq, Eq, Structural, Debug)]
pub struct EnqueueEntry {
    pub owned_page: SharedDmaPage,
    pub device: DmaDeviceId,
    pub dev_page_offset: PageNumber,
    pub callback: Option<u64>,
}

/// What makes two requests the same.
#[derive(Clone, Copy, PartialEq, Eq, Structural, Debug)]
pub struct QueueDedupEntry {
    pub host_ptr: PagePointer,
    pub dev_id: DmaDeviceId,
    pub dev_page_offset: PageNumber,
}

/// Where the request with a key waits.
pub struct QueuePlace {
    pub key: QueueDedupEntry,
    pub index: u64,
}

/// A waiting request as a value.
pub struct Waiting {
    pub key: QueueDedupEntry,
    pub callbacks: Seq<u64>,
}

impl QueueEntry {
    /// The request as a value.
    pub open spec fn view(&self) -> Waiting {
        Waiting {
            key: QueueDedupEntry {
                host_ptr: self.owned_page.pointer->0,
                dev_id: self.device,
                dev_page_offset: self.dev_page_offset,
            },
            callbacks: listed(self.callbacks),
        }
    }

    /// Takes the callbacks of a request that was served out of it.
    pub fn into_callbacks(self) -> (r: Vec<u64>)
        ensures
            r@ == self@.callbacks,
    {
        into_callbacks(self.callbacks)
    }
}

impl EnqueueEntry {
    /// What the request asks for.
    pub open spec fn key(self) -> QueueDedupEntry {
        QueueDedupEntry {
            host_ptr: self.owned_page.pointer->0,
            dev_id: self.device,
            dev_page_offset: self.dev_page_offset,
        }
    }
}

/// The callbacks of a request that brings `callback` along.
pub open spec fn with_callback(callbacks: Seq<u64>, callback: Option<u64>) -> Seq<u64> {
    match callback {
        Some(id) => callbacks.push(id),
        None => callbacks,
    }
}

/// Request `i` has the key `key`.
pub open spec fn is_at(waiting: Seq<Waiting>, key: QueueDedupEntry, i: int) -> bool {
    0 <= i < waiting.len() && waiting[i].key == key
}

/// A request with the key `key` waits.
pub open spec fn waits(waiting: Seq<Waiting>, key: QueueDedupEntry) -> bool {
    exists|i: int| #[trigger] is_at(waiting, key, i)
}

/// Where the request with the key `key` waits.
pub open spec fn place_of(waiting: Seq<Waiting>, key: QueueDedupEntry) -> int {
    choose|i: int| #[trigger] is_at(waiting, key, i)
}

/// What waits once `entry` was let in: a request that waits already takes its callback
/// on, and another one waits behind all others.
pub open spec fn let_in(waiting: Seq<Waiting>, entry: EnqueueEntry) -> Seq<Waiting> {
    let key = entry.key();
    if waits(waiting, key) {
        let i = place_of(waiting, key);
        waiting.update(
            i,
            Waiting { key, callbacks: with_callback(waiting[i].callbacks, entry.callback) },
        )
    } else {
        waiting.push(Waiting { key, callbacks: with_callback(Seq::empty(), entry.callback) })
    }
}

/// There is no room for `entry`: it would have to wait, and enough others do.
pub open spec fn is_full(waiting: Seq<Waiting>, entry: EnqueueEntry, queue_limit: usize) -> bool {
    !waits(waiting, entry.key()) && waiting.len() >= queue_limit
}

/// The queue, first come first served.
pub struct Queue {
    pub queue: VecDeque<QueueEntry>,
    /// The key of every waiting request, with its number: requests are numbered in
    /// the order in which they come.
    pub already_in_queue: Vec<QueuePlace>,
    /// The number of the first waiting request.
    pub base: u64,
}

impl Queue {
    /// The waiting requests, first come first.
    pub open spec fn view(&self) -> Seq<Waiting> {
        Seq::new(self.queue@.len(), |i: int| self.queue@[i]@)
    }

    /// Every waiting page was faulted in, no request waits twice, and the numbers are
    /// right.
    pub open spec fn wf(&self) -> bool {
        &&& self.already_in_queue@.len() == self.queue@.len()
        &&& self.base + self.queue@.len() <= u64::MAX
        &&& forall|i: int|
            0 <= i < self.queue@.len() ==> (#[trigger] self.queue@[i]).owned_page.pointer is Some
        &&& forall|i: int|
            0 <= i < self.already_in_queue@.len() ==> (#[trigger] self.already_in_queue@[i]).key
                == self@[i].key && self.already_in_queue@[i].index == self.base + i
        &&& forall|i: int, j: int|
            0 <= i < self@.len() && 0 <= j < self@.len() && i != j ==> (#[trigger] self@[i]).key != (
            #[trigger] self@[j]).key
    }

    /// There is a number left for the request, if it is going to wait.
    pub open spec fn has_room(&self, enqueue: EnqueueEntry, queue_limit: usize) -> bool {
        !waits(self@, enqueue.key()) && self@.len() < queue_limit ==> self.base + self@.len()
            < u64::MAX
    }

    /// A queue in which nothing waits.
    pub fn new() -> (r: Self)
        ensures
            r.wf(),
            r@.len() == 0,
            r.base == 0,
    {
        Queue { queue: VecDeque::new(), already_in_queue: Vec::new(), base: 0 }
    }

    /// How many requests wait.
    pub fn len(&self) -> (r: usize)
        ensures
            r == self@.len(),
    {
        self.queue.len()
    }

    /// The place of the request with the key `key`.
    fn find(&self, key: QueueDedupEntry) -> (r: Option<usize>)
        requires
            self.wf(),
        ensures
            match r {
                Some(i) => is_at(self@, key, i as int),
                None => !waits(self@, key),
            },
    {
        let total: usize = self.already_in_queue.len();
        let mut i: usize = 0;
        while i < total
            invariant
                i <= total == self.already_in_queue@.len(),
                self.wf(),
                forall|j: int| 0 <= j < i ==> !#[trigger] is_at(self@, key, j),
            decreases total - i,
        {
            let place = &self.already_in_queue[i];
            assert(place.key == self@[i as int].key);
            if place.key == key {
                let index: u64 = place.index - self.base;
                return Some(index as usize);
            }
            i = i + 1;
        }
        None
    }

    /// Takes the request that has waited longest, with the pointer of its page.
    pub fn dequeue(&mut self) -> (r: Option<(QueueEntry, PagePointer)>)
        requires
            old(self).wf(),
        ensures
            final(self).wf(),
            match r {
                None => old(self)@.len() == 0 && final(self)@ == old(self)@ && final(self).base
                    == old(self).base,
                Some((entry, ptr)) => {
                    &&& old(self)@.len() > 0
                    &&& entry@ == old(self)@[0]
                    &&& entry.owned_page.pointer == Some(ptr)
                    &&& final(self)@ == old(self)@.drop_first()
                    &&& final(self).base == if old(self)@.len() == 1 {
                        0
                    } else {
                        (old(self).base + 1) as u64
                    }
                },
            },
    {
        let ghost before = self@;
        let entry = match self.queue.pop_front() {
            Some(entry) => entry,
            None => return None,
        };
        proof {
            assert(entry == old(self).queue@[0]);
            assert(before[0] == entry@);
            assert(self@ =~= before.drop_first());
        }
        let ptr = match entry.owned_page.get() {
            Some(ptr) => ptr,
            None => return None,
        };
        // The request that has waited longest is the first one that was numbered.
        let ghost places = self.already_in_queue@;
        self.already_in_queue.remove(0);
        proof {
            assert forall|i: int| 0 <= i < self.already_in_queue@.len() implies (
            #[trigger] self.already_in_queue@[i]).key == self@[i].key
                && self.already_in_queue@[i].index == old(self).base + 1 + i by {
                assert(self.already_in_queue@[i] == places[i + 1]);
                assert(places[i + 1].key == before[i + 1].key);
                assert(self@[i] == before[i + 1]);
            }
            assert forall|i: int, j: int|
                0 <= i < self@.len() && 0 <= j < self@.len() && i != j implies (
            #[trigger] self@[i]).key != (#[trigger] self@[j]).key by {
                assert(self@[i] == before[i + 1] && self@[j] == before[j + 1]);
            }
        }
        self.base = if self.queue.len() == 0 {
            0
        } else {
            self.base + 1
        };
        Some((entry, ptr))
    }

    /// Lets a request wait, unless `queue_limit` requests wait already.
    ///
    /// A request that waits already takes the callback of the new one on.
    pub fn enqueue(&mut self, enqueue: EnqueueEntry, queue_limit: usize) -> (r: Result<
        (),
        EnqueueEntry,
    >)
        requires
            old(self).wf(),
            enqueue.owned_page.pointer is Some,
            old(self).has_room(enqueue, queue_limit),
        ensures
            final(self).wf(),
            final(self).base == old(self).base,
            r is Err <==> is_full(old(self)@, enqueue, queue_limit),
            match r {
                Ok(()) => final(self)@ == let_in(old(self)@, enqueue),
                Err(back) => back == enqueue && final(self)@ == old(self)@,
            },
    {
        let ghost before = self@;
        let ptr = match enqueue.owned_page.get() {
            Some(ptr) => ptr,
            None => return Err(enqueue),
        };
        let dedup_entry = QueueDedupEntry {
            host_ptr: ptr,
            dev_id: enqueue.device,
            dev_page_offset: enqueue.dev_page_offset,
        };
        match self.find(dedup_entry) {
            Some(index) => {
                proof {
                    // No other request has the key.
                    let i = place_of(before, enqueue.key());
                    assert(is_at(before, enqueue.key(), index as int));
                    assert(is_at(before, enqueue.key(), i));
                    assert(before[i].key == before[index as int].key);
                    assert(i == index);
                }
                if let Some(callback) = enqueue.callback {
                    let mut entry = self.queue.remove(index).unwrap();
                    assert(entry == old(self).queue@[index as int]);
                    add_callback(&mut entry.callbacks, callback);
                    self.queue.insert(index, entry);
                    proof {
                        let after = before.update(
                            index as int,
                            Waiting {
                                key: enqueue.key(),
                                callbacks: with_callback(
                                    before[index as int].callbacks,
                                    enqueue.callback,
                                ),
                            },
                        );
                        assert forall|i: int| 0 <= i < before.len() && i != index implies self.queue@[i]
                            == old(self).queue@[i] by {}
                        assert(self@ =~= after);
                        assert(is_at(before, enqueue.key(), index as int));
                        assert forall|i: int| 0 <= i < self.queue@.len() implies (
                        #[trigger] self.queue@[i]).owned_page.pointer is Some by {
                            if i != index {
                                assert(old(self).queue@[i].owned_page.pointer is Some);
                            } else {
                                assert(old(self).queue@[index as int].owned_page.pointer is Some);
                            }
                        }
                        assert forall|i: int| 0 <= i < before.len() implies self@[i].key
                            == before[i].key by {}
                        assert forall|i: int, j: int|
                            0 <= i < self@.len() && 0 <= j < self@.len() && i != j implies (
                        #[trigger] self@[i]).key != (#[trigger] self@[j]).key by {
                            assert(before[i].key != before[j].key);
                        }
                    }
                } else {
                    proof {
                        assert(is_at(before, enqueue.key(), index as int));
                        assert(before.update(
                            index as int,
                            Waiting {
                                key: enqueue.key(),
                                callbacks: with_callback(
                                    before[index as int].callbacks,
                                    enqueue.callback,
                                ),
                            },
                        ) =~= before);
                    }
                }
                Ok(())
            },
            None => {
                if self.queue.len() >= queue_limit {
                    return Err(enqueue);
                }
                let pushed_val_idx: u64 = self.queue.len() as u64;
                let abs_index: u64 = self.base + pushed_val_idx;
                let mut callbacks = no_callbacks();
                if let Some(callback) = enqueue.callback {
                    add_callback(&mut callbacks, callback);
                }
                self.queue.push_back(
                    QueueEntry {
                        owned_page: enqueue.owned_page,
                        device: enqueue.device,
                        dev_page_offset: enqueue.dev_page_offset,
                        callbacks,
                    },
                );
                self.already_in_queue.push(QueuePlace { key: dedup_entry, index: abs_index });
                proof {
                    let fresh = Waiting {
                        key: enqueue.key(),
                        callbacks: with_callback(Seq::empty(), enqueue.callback),
                    };
                    assert(self@ =~= before.push(fresh));
                    assert forall|i: int| 0 <= i < self.already_in_queue@.len() implies (
                    #[trigger] self.already_in_queue@[i]).key == self@[i].key
                        && self.already_in_queue@[i].index == self.base + i by {
                        if i < before.len() {
                            assert(old(self).already_in_queue@[i].key == before[i].key);
                        }
                    }
                    assert forall|i: int, j: int|
                        0 <= i < self@.len() && 0 <= j < self@.len() && i != j implies (
                    #[trigger] self@[i]).key != (#[trigger] self@[j]).key by {
                        if i == before.len() {
                            assert(!is_at(before, enqueue.key(), j));
                        } else if j == before.len() {
                            assert(!is_at(before, enqueue.key(), i));
                        } else {
                            assert(before[i].key != before[j].key);
                        }
                    }
                }
                Ok(())
            },
        }
    }
}

/// What to do about a request that is being made.
pub enum EnqueueStep {
    /// Nobody will ever serve the request: the worker is gone.
    WorkerDied,
    /// The request waits; wake the worker.
    Enqueued,
    /// The queue is full; wait until something was taken out, and try again.
    Wait(EnqueueEntry),
}

/// What the worker has to do next.
pub enum DequeueStep {
    /// The flusher was closed; stop.
    Closed,
    /// Serve the request, and wake who waits for room.
    Serve(QueueEntry, PagePointer),
    /// Nothing waits; wait for a request.
    Wait,
}

/// Why a request failed.
pub enum FlushError {
    /// The device says so.
    Device(anyhow::Error),
    /// The device panicked on it.
    Panicked,
}

impl FlushError {
    /// What is said of a device that panicked.
    pub fn panic_message() -> (r: &'static str)
        ensures
            r@ == "DMA device panicked whilst processing request"@,
    {
        "DMA device panicked whilst processing request"
    }
}

/// The request to write `page` back. There is none for a page that was never faulted
/// in.
pub fn request(
    page: SharedDmaPage,
    device: DmaDeviceId,
    page_offset: PageNumber,
    callback: Option<u64>,
) -> (r: Option<EnqueueEntry>)
    ensures
        r == match page.pointer {
            Some(_) => Some(
                EnqueueEntry { owned_page: page, device, dev_page_offset: page_offset, callback },
            ),
            None => None,
        },
{
    if page.get().is_none() {
        return None;
    }
    Some(EnqueueEntry { owned_page: page, device, dev_page_offset: page_offset, callback })
}

/// Tries to let a request wait.
pub fn enqueue_step(
    queue: &mut Queue,
    closed: bool,
    entry: EnqueueEntry,
    queue_limit: usize,
) -> (r: EnqueueStep)
    requires
        old(queue).wf(),
        entry.owned_page.pointer is Some,
        old(queue).has_room(entry, queue_limit),
    ensures
        final(queue).wf(),
        r is WorkerDied <==> closed,
        r is Wait <==> !closed && is_full(old(queue)@, entry, queue_limit),
        match r {
            EnqueueStep::WorkerDied => final(queue)@ == old(queue)@,
            EnqueueStep::Enqueued => final(queue)@ == let_in(old(queue)@, entry),
            EnqueueStep::Wait(back) => back == entry && final(queue)@ == old(queue)@,
        },
        final(queue).base == old(queue).base,
{
    if closed {
        return EnqueueStep::WorkerDied;
    }
    match queue.enqueue(entry, queue_limit) {
        Ok(()) => EnqueueStep::Enqueued,
        Err(requeue) => EnqueueStep::Wait(requeue),
    }
}

/// Looks for something to serve.
pub fn dequeue_step(queue: &mut Queue, closed: bool) -> (r: DequeueStep)
    requires
        old(queue).wf(),
    ensures
        final(queue).wf(),
        r is Closed <==> closed,
        r is Wait <==> !closed && old(queue)@.len() == 0,
        match r {
            DequeueStep::Serve(entry, ptr) => {
                &&& entry@ == old(queue)@[0]
                &&& entry.owned_page.pointer == Some(ptr)
                &&& final(queue)@ == old(queue)@.drop_first()
                &&& final(queue).base == if old(queue)@.len() == 1 {
                    0
                } else {
                    (old(queue).base + 1) as u64
                }
            },
            _ => final(queue)@ == old(queue)@ && final(queue).base == old(queue).base,
        },
{
    if closed {
        return DequeueStep::Closed;
    }
    match queue.dequeue() {
        Some((entry, ptr)) => DequeueStep::Serve(entry, ptr),
        None => DequeueStep::Wait,
    }
}

/// What is reported of a request: what the device returned, or that it panicked where
/// it returned nothing.
pub open spec fn outcome_of(returned: Option<Result<(), anyhow::Error>>) -> Result<
    (),
    FlushError,
> {
    match returned {
        Some(Ok(())) => Ok(()),
        Some(Err(error)) => Err(FlushError::Device(error)),
        None => Err(FlushError::Panicked),
    }
}

/// What is reported of a request.
pub fn flush_outcome(returned: Option<Result<(), anyhow::Error>>) -> (r: Result<(), FlushError>)
    ensures
        r == outcome_of(returned),
{
    match returned {
        Some(Ok(())) => Ok(()),
        Some(Err(error)) => Err(FlushError::Device(error)),
        None => Err(FlushError::Panicked),
    }
}

/// A request that was served: who is told, in order, and what.
pub struct Served {
    pub callbacks: Vec<u64>,
    pub outcome: Result<(), FlushError>,
}

/// Decides who is told what of a request, where the device returned `returned`, or
/// panicked and returned nothing.
pub fn finish(entry: QueueEntry, returned: Option<Result<(), anyhow::Error>>) -> (r: Served)
    ensures
        r.callbacks@ == entry@.callbacks,
        r.outcome == outcome_of(returned),
{
    Served { callbacks: entry.into_callbacks(), outcome: flush_outcome(returned) }
}

/// A callback that is a function of the outcome.
pub struct DmaFnCallback<F>(pub F);

impl<F: FnOnce(Result<(), &anyhow::Error>)> DmaFnCallback<F> {
    /// The callback that calls `callback`.
    pub fn new(callback: F) -> (r: Self)
        ensures
            r == DmaFnCallback(callback),
    {
        DmaFnCallback(callback)
    }

    /// Reports that the request was served.
    pub fn on_success(self)
        requires
            self.0.requires((Ok(()),)),
        ensures
            self.0.ensures((Ok(()),), ()),
    {
        let callback = self.0;
        callback(Ok(()))
    }

    /// Reports that the request failed.
    pub fn on_failure(self, error: &anyhow::Error)
        requires
            self.0.requires((Err(error),)),
        ensures
            self.0.ensures((Err(error),), ()),
    {
        let callback = self.0;
        callback(Err(error))
    }
}

/// All callbacks that wait, in the order of their requests.
pub open spec fn waiting_callbacks(waiting: Seq<Waiting>) -> Seq<u64>
    decreases waiting.len(),
{
    if waiting.len() == 0 {
        Seq::empty()
    } else {
        waiting[0].callbacks + waiting_callbacks(waiting.drop_first())
    }
}

/// Joining a request that waits loses no callback: all that waited still wait, and the
/// new one waits with them.
pub proof fn joining_keeps_callbacks(waiting: Seq<Waiting>, i: int, callback: Option<u64>)
    requires
        0 <= i < waiting.len(),
    ensures
        ({
            let joined = waiting.update(
                i,
                Waiting {
                    key: waiting[i].key,
                    callbacks: with_callback(waiting[i].callbacks, callback),
                },
            );
            waiting_callbacks(joined).to_multiset() == match callback {
                Some(id) => waiting_callbacks(waiting).to_multiset().insert(id),
                None => waiting_callbacks(waiting).to_multiset(),
            }
        }),
    decreases waiting.len(),
{
    broadcast use vstd::multiset::group_multiset_axioms, vstd::seq_lib::group_to_multiset_ensures;

    let joined = waiting.update(
        i,
        Waiting { key: waiting[i].key, callbacks: with_callback(waiting[i].callbacks, callback) },
    );
    let rest = waiting.drop_first();
    if i == 0 {
        assert(joined.drop_first() =~= rest);
        let tail = waiting_callbacks(rest);
        vstd::seq_lib::lemma_multiset_commutative(waiting[0].callbacks, tail);
        vstd::seq_lib::lemma_multiset_commutative(joined[0].callbacks, tail);
        assert(waiting_callbacks(joined).to_multiset() =~= match callback {
            Some(id) => waiting_callbacks(waiting).to_multiset().insert(id),
            None => waiting_callbacks(waiting).to_multiset(),
        });
    } else {
        joining_keeps_callbacks(rest, i - 1, callback);
        assert(joined.drop_first() =~= rest.update(
            i - 1,
            Waiting {
                key: rest[i - 1].key,
                callbacks: with_callback(rest[i - 1].callbacks, callback),
            },
        ));
        vstd::seq_lib::lemma_multiset_commutative(
            waiting[0].callbacks,
            waiting_callbacks(rest),
        );
        vstd::seq_lib::lemma_multiset_commutative(
            joined[0].callbacks,
            waiting_callbacks(joined.drop_first()),
        );
        assert(waiting_callbacks(joined).to_multiset() =~= match callback {
            Some(id) => waiting_callbacks(waiting).to_multiset().insert(id),
            None => waiting_callbacks(waiting).to_multiset(),
        });
    }
}

/// A new request waits behind all others, with its callback.
pub proof fn waiting_last_keeps_callbacks(
    waiting: Seq<Waiting>,
    key: QueueDedupEntry,
    callback: Option<u64>,
)
    ensures
        waiting_callbacks(
            waiting.push(Waiting { key, callbacks: with_callback(Seq::empty(), callback) }),
        ) == with_callback(waiting_callbacks(waiting), callback),
    decreases waiting.len(),
{
    let fresh = Waiting { key, callbacks: with_callback(Seq::empty(), callback) };
    let after = waiting.push(fresh);
    if waiting.len() == 0 {
        assert(after.drop_first() =~= Seq::empty());
        assert(waiting_callbacks(after.drop_first()) =~= Seq::empty());
    } else {
        waiting_last_keeps_callbacks(waiting.drop_first(), key, callback);
        assert(after.drop_first() =~= waiting.drop_first().push(fresh));
    }
    assert(waiting_callbacks(after) =~= with_callback(waiting_callbacks(waiting), callback));
}

/// What may happen to the queue.
pub enum FlusherOp {
    /// A request is let in.
    LetIn(EnqueueEntry),
    /// The request that has waited longest is served, if one waits.
    Serve,
}

/// What waits after the first `n` of `ops`, where nothing waited before.
pub open spec fn queue_after(ops: Seq<FlusherOp>, n: nat) -> Seq<Waiting>
    decreases n,
{
    if n == 0 {
        Seq::empty()
    } else {
        let before = queue_after(ops, (n - 1) as nat);
        match ops[n - 1] {
            FlusherOp::LetIn(entry) => let_in(before, entry),
            FlusherOp::Serve => if before.len() == 0 {
                before
            } else {
                before.drop_first()
            },
        }
    }
}

/// The callbacks that the first `n` of `ops` bring along.
pub open spec fn asked(ops: Seq<FlusherOp>, n: nat) -> Seq<u64>
    decreases n,
{
    if n == 0 {
        Seq::empty()
    } else {
        let before = asked(ops, (n - 1) as nat);
        match ops[n - 1] {
            FlusherOp::LetIn(entry) => with_callback(before, entry.callback),
            FlusherOp::Serve => before,
        }
    }
}

/// The callbacks of the requests that the first `n` of `ops` serve.
pub open spec fn told(ops: Seq<FlusherOp>, n: nat) -> Seq<u64>
    decreases n,
{
    if n == 0 {
        Seq::empty()
    } else {
        let before = told(ops, (n - 1) as nat);
        let waiting = queue_after(ops, (n - 1) as nat);
        match ops[n - 1] {
            FlusherOp::LetIn(entry) => before,
            FlusherOp::Serve => if waiting.len() == 0 {
                before
            } else {
                before + waiting[0].callbacks
            },
        }
    }
}

/// No callback is lost and none is told twice: each one that was asked for was told
/// once, or waits once.
pub proof fn callbacks_are_told_once(ops: Seq<FlusherOp>, n: nat)
    requires
        n <= ops.len(),
    ensures
        told(ops, n).to_multiset().add(waiting_callbacks(queue_after(ops, n)).to_multiset())
            == asked(ops, n).to_multiset(),
    decreases n,
{
    broadcast use vstd::multiset::group_multiset_axioms, vstd::seq_lib::group_to_multiset_ensures;

    if n == 0 {
        assert(waiting_callbacks(queue_after(ops, 0)) =~= Seq::<u64>::empty());
        assert(told(ops, n).to_multiset().add(
            waiting_callbacks(queue_after(ops, n)).to_multiset(),
        ) =~= asked(ops, n).to_multiset());
    } else {
        let m = (n - 1) as nat;
        callbacks_are_told_once(ops, m);
        let waiting = queue_after(ops, m);
        match ops[n - 1] {
            FlusherOp::LetIn(entry) => {
                if waits(waiting, entry.key()) {
                    let i = place_of(waiting, entry.key());
                    assert(is_at(waiting, entry.key(), i));
                    joining_keeps_callbacks(waiting, i, entry.callback);
                } else {
                    waiting_last_keeps_callbacks(waiting, entry.key(), entry.callback);
                }
            },
            FlusherOp::Serve => {
                if waiting.len() > 0 {
                    vstd::seq_lib::lemma_multiset_commutative(
                        waiting[0].callbacks,
                        waiting_callbacks(waiting.drop_first()),
                    );
                    vstd::seq_lib::lemma_multiset_commutative(
                        told(ops, m),
                        waiting[0].callbacks,
                    );
                }
            },
        }
        assert(told(ops, n).to_multiset().add(
            waiting_callbacks(queue_after(ops, n)).to_multiset(),
        ) =~= asked(ops, n).to_multiset());
    }
}

/// A page waits at most once per place on a device, whatever happens.
pub proof fn requests_wait_once(ops: Seq<FlusherOp>, n: nat, i: int, j: int)
    requires
        n <= ops.len(),
        0 <= i < j < queue_after(ops, n).len(),
    ensures
        queue_after(ops, n)[i].key != queue_after(ops, n)[j].key,
    decreases n,
{
    if n > 0 {
        let m = (n - 1) as nat;
        let before = queue_after(ops, m);
        match ops[n - 1] {
            FlusherOp::LetIn(entry) => {
                let key = entry.key();
                if waits(before, key) {
                    assert(is_at(before, key, place_of(before, key)));
                    requests_wait_once(ops, m, i, j);
                } else if j < before.len() {
                    requests_wait_once(ops, m, i, j);
                } else {
                    assert(!is_at(before, key, i));
                }
            },
            FlusherOp::Serve => {
                if before.len() > 0 {
                    requests_wait_once(ops, m, i + 1, j + 1);
                }
            },
        }
    }
}

} // verus!
