//! The queue of pages that wait to be written back.

use rapid_arm_emu::emu_abi::memory::{PageNumber, PagePointer};
use rapid_arm_emu::io_mmu::dma_async_flusher::{
    dequeue_step, enqueue_step, finish, flush_outcome, request, DequeueStep, DmaDeviceId, DmaFnCallback,
    EnqueueEntry, EnqueueStep, FlushError, Queue, SharedDmaPage, DEFAULT_QUEUE_LIMIT,
};
use rapid_arm_emu::io_mmu::fault::{MemoryFault, MemoryFaultReason};

fn entry(ptr: usize, device: usize, page: u64, callback: Option<u64>) -> EnqueueEntry {
    request(
        SharedDmaPage { pointer: Some(PagePointer(ptr)) },
        DmaDeviceId(device),
        PageNumber(page),
        callback,
    )
    .unwrap()
}

#[test]
fn requests_are_served_in_order() {
    let mut queue = Queue::new();
    assert!(queue.enqueue(entry(0x1000, 1, 0, Some(10)), DEFAULT_QUEUE_LIMIT).is_ok());
    assert!(queue.enqueue(entry(0x2000, 1, 1, Some(20)), DEFAULT_QUEUE_LIMIT).is_ok());
    assert_eq!(queue.len(), 2);

    let (first, ptr) = queue.dequeue().unwrap();
    assert_eq!(ptr, PagePointer(0x1000));
    assert_eq!(first.dev_page_offset, PageNumber(0));
    assert_eq!(first.into_callbacks(), [10]);
    assert_eq!(queue.base, 1);

    let (second, ptr) = queue.dequeue().unwrap();
    assert_eq!(ptr, PagePointer(0x2000));
    assert_eq!(second.into_callbacks(), [20]);
    assert_eq!(queue.base, 0);

    assert!(queue.dequeue().is_none());
}

#[test]
fn a_request_that_waits_takes_callbacks_on() {
    let mut queue = Queue::new();
    assert!(queue.enqueue(entry(0x1000, 1, 0, Some(1)), 2).is_ok());
    assert!(queue.enqueue(entry(0x2000, 1, 0, None), 2).is_ok());
    // The queue is full, but both requests wait already.
    assert!(queue.enqueue(entry(0x1000, 1, 0, Some(2)), 2).is_ok());
    assert!(queue.enqueue(entry(0x1000, 1, 0, None), 2).is_ok());
    assert!(queue.enqueue(entry(0x2000, 1, 0, Some(3)), 2).is_ok());
    assert_eq!(queue.len(), 2);

    assert_eq!(queue.dequeue().unwrap().0.into_callbacks(), [1, 2]);
    assert_eq!(queue.dequeue().unwrap().0.into_callbacks(), [3]);
}

#[test]
fn a_full_queue_hands_the_request_back() {
    let mut queue = Queue::new();
    assert!(queue.enqueue(entry(0x1000, 1, 0, Some(1)), 1).is_ok());
    let late = entry(0x2000, 1, 0, Some(2));
    assert_eq!(queue.enqueue(late, 1), Err(late));
    assert_eq!(queue.len(), 1);
}

#[test]
fn page_device_and_place_make_a_request_what_it_is() {
    let mut queue = Queue::new();
    assert!(queue.enqueue(entry(0x1000, 1, 0, None), 8).is_ok());
    assert!(queue.enqueue(entry(0x1000, 2, 0, None), 8).is_ok());
    assert!(queue.enqueue(entry(0x1000, 1, 5, None), 8).is_ok());
    assert!(queue.enqueue(entry(0x3000, 1, 0, None), 8).is_ok());
    assert_eq!(queue.len(), 4);
}

#[test]
fn a_served_request_may_wait_again() {
    let mut queue = Queue::new();
    assert!(queue.enqueue(entry(0x1000, 1, 0, Some(1)), 4).is_ok());
    assert!(queue.enqueue(entry(0x2000, 1, 0, Some(2)), 4).is_ok());
    assert!(queue.dequeue().is_some());
    assert!(queue.enqueue(entry(0x1000, 1, 0, Some(3)), 4).is_ok());
    assert!(queue.enqueue(entry(0x2000, 1, 0, Some(4)), 4).is_ok());
    assert_eq!(queue.len(), 2);
    assert_eq!(queue.dequeue().unwrap().0.into_callbacks(), [2, 4]);
    assert_eq!(queue.dequeue().unwrap().0.into_callbacks(), [3]);
}

#[test]
fn pages_that_were_never_faulted_in_are_not_requested() {
    let never = SharedDmaPage { pointer: None };
    assert!(request(never, DmaDeviceId(1), PageNumber(0), Some(1)).is_none());
}

#[test]
fn a_closed_flusher_takes_and_serves_nothing() {
    let mut queue = Queue::new();
    assert!(matches!(
        enqueue_step(&mut queue, true, entry(0x1000, 1, 0, None), 1),
        EnqueueStep::WorkerDied
    ));
    assert_eq!(queue.len(), 0);
    assert!(matches!(
        enqueue_step(&mut queue, false, entry(0x1000, 1, 0, None), 1),
        EnqueueStep::Enqueued
    ));
    assert!(matches!(
        enqueue_step(&mut queue, false, entry(0x2000, 1, 0, None), 1),
        EnqueueStep::Wait(_)
    ));
    assert!(matches!(dequeue_step(&mut queue, true), DequeueStep::Closed));
    assert_eq!(queue.len(), 1);
    assert_eq!(queue.base, 0);
    assert!(matches!(
        dequeue_step(&mut queue, false),
        DequeueStep::Serve(_, PagePointer(0x1000))
    ));
    assert!(matches!(dequeue_step(&mut queue, false), DequeueStep::Wait));
    assert_eq!(queue.base, 0);

    for page in 1..4 {
        let step = enqueue_step(&mut queue, false, entry(0x1000 * page, 1, 0, None), 4);
        assert!(matches!(step, EnqueueStep::Enqueued));
    }
    assert!(matches!(dequeue_step(&mut queue, false), DequeueStep::Serve(..)));
    assert_eq!(queue.base, 1);
}

#[test]
fn outcomes_are_reported() {
    assert!(flush_outcome(Some(Ok(()))).is_ok());
    assert!(matches!(flush_outcome(None), Err(FlushError::Panicked)));
    match flush_outcome(Some(Err(anyhow::Error::msg("disk on fire")))) {
        Err(FlushError::Device(error)) => assert_eq!(error.to_string(), "disk on fire"),
        _ => panic!("the error of the device is reported"),
    }
    assert_eq!(
        FlushError::panic_message(),
        "DMA device panicked whilst processing request"
    );
}

#[test]
fn all_callbacks_of_a_request_are_told() {
    let mut queue = Queue::new();
    assert!(queue.enqueue(entry(0x1000, 1, 0, Some(7)), 4).is_ok());
    assert!(queue.enqueue(entry(0x1000, 1, 0, Some(9)), 4).is_ok());
    let served = finish(queue.dequeue().unwrap().0, None);
    assert_eq!(served.callbacks, [7, 9]);
    assert!(matches!(served.outcome, Err(FlushError::Panicked)));
}

#[test]
fn callbacks_are_told_the_outcome() {
    let mut succeeded = false;
    DmaFnCallback::new(|outcome: Result<(), &anyhow::Error>| succeeded = outcome.is_ok())
        .on_success();
    assert!(succeeded);

    let mut said = String::new();
    DmaFnCallback::new(|outcome: Result<(), &anyhow::Error>| {
        said = outcome.unwrap_err().to_string()
    })
    .on_failure(&anyhow::Error::msg("disk on fire"));
    assert_eq!(said, "disk on fire");
}

#[test]
fn faults_carry_address_and_reason() {
    let fault = MemoryFault::general_protection(0x1234);
    assert_eq!(fault.vaddr, 0x1234);
    assert!(matches!(fault.reason, MemoryFaultReason::GeneralProtection));
    assert_eq!(
        MemoryFault::general_protection(4096).message(),
        "memory fault at 4096: invalid memory permisions"
    );
    assert_eq!(
        MemoryFault::general_protection(u64::MAX).message(),
        "memory fault at 18446744073709551615: invalid memory permisions"
    );

    let fault = MemoryFault::memory_bus(0x5678, anyhow::Error::msg("no such device"));
    assert_eq!(fault.vaddr, 0x5678);
    assert_eq!(fault.message(), "memory fault at 22136: invalid memory access no such device");
    assert_eq!(fault.reason.message(), "invalid memory access no such device");
    match fault.reason {
        MemoryFaultReason::MemoryBus(error) => assert_eq!(error.to_string(), "no such device"),
        MemoryFaultReason::GeneralProtection => panic!("the device failed"),
    }
}
