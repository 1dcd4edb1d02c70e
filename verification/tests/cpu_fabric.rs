//! The exclusive monitor.

use loom::sync::{Arc, Condvar, Mutex};
use rapid_arm_emu::a64::ExclusiveMonitorLoad;
use rapid_arm_emu::cpu_fabric::{CpuFabric, ExclusiveMonitor, BUCKET_COUNT};
use rapid_arm_emu::vaddr::VAddr;

struct BarrierState {
    count: usize,
    generation_id: usize,
}

/// Lets `num_threads` threads wait for each other.
struct Barrier {
    num_threads: usize,
    state: Mutex<BarrierState>,
    cond: Condvar,
}

impl Barrier {
    fn new(n: usize) -> Self {
        Self {
            num_threads: n,
            state: Mutex::new(BarrierState { count: 0, generation_id: 0 }),
            cond: Condvar::new(),
        }
    }

    fn wait(&self) {
        let mut lock = self.state.lock().unwrap();
        let local_gen = lock.generation_id;
        lock.count += 1;
        if lock.count < self.num_threads {
            while local_gen == lock.generation_id {
                lock = self.cond.wait(lock).unwrap();
            }
        } else {
            lock.count = 0;
            lock.generation_id = lock.generation_id.wrapping_add(1);
            self.cond.notify_all();
        }
    }
}

#[test]
fn test_exclusive_monitor() {
    loom::model(move || {
        let monitor = Arc::new(Mutex::new(ExclusiveMonitor::<u64>::new()));
        let memory = Arc::new(Mutex::new(0_u32));
        let barrier = Arc::new(Barrier::new(2));

        let thread_run = || {
            let memory = Arc::clone(&memory);
            let monitor = Arc::clone(&monitor);
            let barrier = Arc::clone(&barrier);
            loom::thread::spawn(move || {
                let addr = 0x10000DEAD00BEEF;

                let token = monitor
                    .lock()
                    .unwrap()
                    .ldrex(addr, || ExclusiveMonitorLoad::U8(0));
                barrier.wait();
                let _ = monitor.lock().unwrap().strex(addr, token, |val| match val {
                    ExclusiveMonitorLoad::U8(0) => {
                        *memory.try_lock().unwrap() += 1;
                        Ok(())
                    }
                    _ => Err(()),
                });
            })
        };

        let jh1 = thread_run();
        let jh2 = thread_run();

        jh1.join().unwrap();
        jh2.join().unwrap();

        assert_eq!(*memory.try_lock().unwrap(), 1);
    });
}

#[test]
fn a_token_is_used_once() {
    let mut monitor = ExclusiveMonitor::<u64>::new();
    let first = monitor.ldrex(0x1000, || ExclusiveMonitorLoad::U32(7));
    let second = monitor.ldrex(0x1000, || ExclusiveMonitorLoad::U32(7));
    assert_eq!(monitor.strex(0x1000, second, |value| match value {
        ExclusiveMonitorLoad::U32(seen) => Ok(seen),
        _ => Err(()),
    }), Ok(7));
    assert_eq!(monitor.strex(0x1000, first, |_| Ok(0)), Err(()));
}

#[test]
fn a_failing_store_ends_the_reservation_too() {
    let mut monitor = ExclusiveMonitor::<u64>::new();
    let first = monitor.ldrex(0x1000, || ExclusiveMonitorLoad::U8(1));
    let second = monitor.ldrex(0x1000, || ExclusiveMonitorLoad::U8(1));
    assert_eq!(monitor.strex::<u32, _>(0x1000, first, |_| Err(())), Err(()));
    assert_eq!(monitor.strex(0x1000, second, |_| Ok(1)), Err(()));
}

#[test]
fn an_address_of_the_same_bucket_takes_the_slot_over() {
    let mut monitor = ExclusiveMonitor::<u64>::new();
    let addr = 0x1000u64;
    let bucket = addr.reservation_index();
    let other = (addr + 1..).find(|a| a.reservation_index() == bucket).unwrap();
    let token = monitor.ldrex(addr, || ExclusiveMonitorLoad::U8(1));
    let _ = monitor.ldrex(other, || ExclusiveMonitorLoad::U8(2));
    assert_eq!(monitor.strex(addr, token, |_| Ok(())), Err(()));
}

#[test]
fn refused_stores_and_further_loads_do_no_harm() {
    let mut monitor = ExclusiveMonitor::<u64>::new();
    let addr = 0x1000u64;
    let bucket = addr.reservation_index();
    let other = (addr + 1..).find(|a| a.reservation_index() == bucket).unwrap();

    let stale = monitor.ldrex(addr, || ExclusiveMonitorLoad::U8(1));
    let token = monitor.ldrex(addr, || ExclusiveMonitorLoad::U8(1));
    assert_eq!(monitor.strex(addr, token, |_| Ok(())), Ok(()));

    let token = monitor.ldrex(addr, || ExclusiveMonitorLoad::U8(2));
    assert_eq!(monitor.strex(addr, stale, |_| Ok(())), Err(()));
    let elsewhere = monitor.ldrex(other, || ExclusiveMonitorLoad::U8(3));
    let _ = monitor.ldrex(addr, || ExclusiveMonitorLoad::U8(2));
    assert_eq!(monitor.strex(other, elsewhere, |_| Ok(())), Err(()));
    assert_eq!(monitor.strex(addr, token, |_| Ok(())), Ok(()));
}

#[test]
fn an_address_of_another_bucket_leaves_the_slot_alone() {
    let mut fabric = CpuFabric::<u64>::default();
    let addr = 0x1000u64;
    let bucket = addr.reservation_index();
    let other = (addr + 1..).find(|a| a.reservation_index() != bucket).unwrap();
    let token = fabric.monitor.ldrex(addr, || ExclusiveMonitorLoad::U8(1));
    let elsewhere = fabric.monitor.ldrex(other, || ExclusiveMonitorLoad::U8(2));
    assert_eq!(fabric.monitor.strex(other, elsewhere, |_| Ok(())), Ok(()));
    assert_eq!(fabric.monitor.strex(addr, token, |_| Ok(())), Ok(()));
}

#[test]
fn buckets_are_in_range_and_addresses_are_spread() {
    assert_eq!(0u64.reservation_index(), 0);
    let mut seen = vec![false; usize::from(BUCKET_COUNT)];
    for page in 0..100_000u64 {
        seen[(page * 4096).reservation_index()] = true;
    }
    assert!(seen.iter().all(|&used| used));
}

#[test]
fn a_monitor_is_put_in_place() {
    let mut place = None;
    let monitor = ExclusiveMonitor::<u64>::init(&mut place);
    assert_eq!(monitor.reservations.len(), 257);
    assert!(place.is_some());
}
