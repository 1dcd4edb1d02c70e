//! CPU fabric state shared by emulated CPU contexts.
//!
//! The `cpu_fabric` module owns state that is conceptually shared between CPUs, cores.
//! Today, that shared state is the exclusive monitor which is used to model
//! load-exclusive/store-exclusive style atomic sequences.
//!
//! A reservation lives in the slot of its address. A slot counts the exclusive stores
//! that went through it: a reservation holds as long as its slot has its address and
//! has not counted on.

use vstd::prelude::*;
use crate::vaddr::VAddr;

verus! {

/// How many exclusive stores went through a slot.
#[derive(Clone, Copy, PartialEq, Eq, Structural, Debug)]
pub struct Version(pub u64);

/// What a load-exclusive leaves its core with: the count of the slot, and the value
/// that was read.
pub struct ReservationToken<A: VAddr> {
    pub version: Version,
    pub value: A::ExclusiveMonitorLoadValue,
}

/// The reservation of one bucket of addresses.
pub struct ReservationSlot<A> {
    pub address: A,
    pub version: Version,
}

/// How many buckets addresses are spread over.
pub const BUCKET_COUNT: u16 = 257;

impl<A: VAddr> ReservationSlot<A> {
    /// A slot that nothing was reserved in.
    pub open spec fn spec_fresh() -> ReservationSlot<A> {
        ReservationSlot { address: A::NULL, version: Version(0) }
    }

    /// A slot that nothing was reserved in.
    pub fn fresh() -> (r: Self)
        ensures
            r == Self::spec_fresh(),
    {
        ReservationSlot { address: A::NULL, version: Version(0) }
    }

    /// The reservation of `addr` with the count `version` holds.
    pub open spec fn holds(self, addr: A, version: Version) -> bool {
        self.address == addr && self.version == version
    }

    /// Reserves `addr`, and returns the count that the reservation holds for.
    pub fn reserve(&mut self, addr: A) -> (r: Version)
        ensures
            r == old(self).version,
            *final(self) == (ReservationSlot { address: addr, version: old(self).version }),
    {
        self.address = addr;
        self.version
    }

    /// Ends the reservation of `addr` with the count `version`, if it holds, and says
    /// whether it did.
    ///
    /// The count wraps around: an old reservation could hold again only after as many
    /// exclusive stores as there are counts.
    pub fn claim(&mut self, addr: A, version: Version) -> (r: bool)
        ensures
            r == old(self).holds(addr, version),
            r ==> *final(self) == (ReservationSlot {
                address: addr,
                version: Version(old(self).version.0.wrapping_add(1)),
            }),
            !r ==> *final(self) == *old(self),
    {
        if !self.address.same_address(addr) || self.version != version {
            return false;
        }
        self.version = Version(self.version.0.wrapping_add(1));
        true
    }
}

/// What a core does to the monitor.
pub enum MonitorOp<A> {
    /// A load-exclusive of `addr`.
    Ldrex { addr: A },
    /// A store-exclusive to `addr`, with the count that the load-exclusive left.
    Strex { addr: A, version: Version },
}

impl<A: VAddr> MonitorOp<A> {
    /// The bucket of the address.
    pub open spec fn bucket(self) -> nat {
        match self {
            MonitorOp::Ldrex { addr } => addr.bucket(),
            MonitorOp::Strex { addr, version } => addr.bucket(),
        }
    }

    proof fn bucket_facts(self)
        ensures
            self.bucket() < BUCKET_COUNT,
    {
        match self {
            MonitorOp::Ldrex { addr } => addr.bucket_facts(),
            MonitorOp::Strex { addr, version } => addr.bucket_facts(),
        }
    }

    /// It is a store-exclusive that writes, where the slots are `slots`.
    pub open spec fn goes_through(self, slots: Seq<ReservationSlot<A>>) -> bool {
        self matches MonitorOp::Strex { addr, version } && slots[addr.bucket() as int].holds(
            addr,
            version,
        )
    }

    /// The slots after it, where they were `slots` before.
    pub open spec fn applied(self, slots: Seq<ReservationSlot<A>>) -> Seq<ReservationSlot<A>> {
        match self {
            MonitorOp::Ldrex { addr } => slots.update(
                addr.bucket() as int,
                ReservationSlot { address: addr, version: slots[addr.bucket() as int].version },
            ),
            MonitorOp::Strex { addr, version } => if self.goes_through(slots) {
                slots.update(
                    addr.bucket() as int,
                    ReservationSlot { address: addr, version: Version(version.0.wrapping_add(1)) },
                )
            } else {
                slots
            },
        }
    }
}

/// The slots after the first `n` of `ops`.
pub open spec fn after_ops<A: VAddr>(
    slots: Seq<ReservationSlot<A>>,
    ops: Seq<MonitorOp<A>>,
    n: nat,
) -> Seq<ReservationSlot<A>>
    decreases n,
{
    if n == 0 {
        slots
    } else {
        ops[n - 1].applied(after_ops(slots, ops, (n - 1) as nat))
    }
}

/// The exclusive monitor: one slot per bucket of addresses.
pub struct ExclusiveMonitor<A> {
    pub reservations: Vec<ReservationSlot<A>>,
}

impl<A: VAddr> ExclusiveMonitor<A> {
    pub open spec fn wf(self) -> bool {
        self.reservations@.len() == BUCKET_COUNT
    }

    /// The slot of an address.
    pub open spec fn slot(self, addr: A) -> ReservationSlot<A> {
        self.reservations@[addr.bucket() as int]
    }

    /// A monitor in which nothing is reserved.
    pub fn new() -> (r: Self)
        ensures
            r.wf(),
            forall|i: int|
                0 <= i < BUCKET_COUNT ==> #[trigger] r.reservations@[i]
                    == ReservationSlot::<A>::spec_fresh(),
    {
        let mut reservations: Vec<ReservationSlot<A>> = Vec::new();
        let mut i: u16 = 0;
        while i < BUCKET_COUNT
            invariant
                i <= BUCKET_COUNT,
                reservations@.len() == i,
                forall|j: int|
                    0 <= j < i ==> #[trigger] reservations@[j]
                        == ReservationSlot::<A>::spec_fresh(),
            decreases BUCKET_COUNT - i,
        {
            reservations.push(ReservationSlot::fresh());
            i = i + 1;
        }
        ExclusiveMonitor { reservations }
    }

    /// Puts a monitor in which nothing is reserved into `this`.
    pub fn init(this: &mut Option<Self>) -> (r: &mut Self)
        ensures
            r.wf(),
            forall|i: int|
                0 <= i < BUCKET_COUNT ==> #[trigger] r.reservations@[i]
                    == ReservationSlot::<A>::spec_fresh(),
            *final(this) == Some(*final(r)),
    {
        *this = Some(Self::new());
        this.as_mut().unwrap()
    }

    /// Load-exclusive: reserves `addr` and reads it.
    #[must_use]
    pub fn ldrex<F: FnOnce() -> A::ExclusiveMonitorLoadValue>(
        &mut self,
        addr: A,
        load_op: F,
    ) -> (r: ReservationToken<A>)
        requires
            old(self).wf(),
            load_op.requires(()),
        ensures
            final(self).wf(),
            final(self).reservations@ == (MonitorOp::Ldrex { addr }).applied(
                old(self).reservations@,
            ),
            r.version == old(self).slot(addr).version,
            load_op.ensures((), r.value),
    {
        let reserve_idx: usize = addr.reservation_index();
        let version = self.reservations[reserve_idx].reserve(addr);
        let value = load_op();
        ReservationToken { version, value }
    }

    /// Store-exclusive: writes if the reservation still holds. The reservation ends
    /// with it, whether or not the write itself succeeds.
    pub fn strex<R, F: FnOnce(A::ExclusiveMonitorLoadValue) -> Result<R, ()>>(
        &mut self,
        addr: A,
        tok: ReservationToken<A>,
        store_op: F,
    ) -> (r: Result<R, ()>)
        requires
            old(self).wf(),
            old(self).slot(addr).holds(addr, tok.version) ==> store_op.requires((tok.value,)),
        ensures
            final(self).wf(),
            final(self).reservations@ == (MonitorOp::Strex {
                addr,
                version: tok.version,
            }).applied(old(self).reservations@),
            if old(self).slot(addr).holds(addr, tok.version) {
                store_op.ensures((tok.value,), r)
            } else {
                r == Err::<R, ()>(())
            },
    {
        let reserve_idx: usize = addr.reservation_index();
        let ghost before = self.reservations@;
        if !self.reservations[reserve_idx].claim(addr, tok.version) {
            assert(self.reservations@ =~= before);
            return Err(());
        }
        store_op(tok.value)
    }
}

/// How many of the operations `from .. to` are exclusive stores of the bucket `bucket`
/// that go through.
spec fn stores_through<A: VAddr>(
    slots: Seq<ReservationSlot<A>>,
    ops: Seq<MonitorOp<A>>,
    bucket: nat,
    from: nat,
    to: nat,
) -> nat
    decreases to,
{
    if to <= from {
        0
    } else {
        let before = stores_through(slots, ops, bucket, from, (to - 1) as nat);
        if ops[to - 1].bucket() == bucket && ops[to - 1].goes_through(
            after_ops(slots, ops, (to - 1) as nat),
        ) {
            before + 1
        } else {
            before
        }
    }
}

proof fn lemma_stores_through<A: VAddr>(
    slots: Seq<ReservationSlot<A>>,
    ops: Seq<MonitorOp<A>>,
    bucket: nat,
    from: nat,
    to: nat,
)
    requires
        slots.len() == BUCKET_COUNT,
        bucket < BUCKET_COUNT,
        from <= to <= ops.len(),
        to - from <= u64::MAX,
    ensures
        after_ops(slots, ops, from).len() == BUCKET_COUNT,
        after_ops(slots, ops, to).len() == BUCKET_COUNT,
        stores_through(slots, ops, bucket, from, to) <= to - from,
        ({
            let count = after_ops(slots, ops, from)[bucket as int].version.0 + stores_through(
                slots,
                ops,
                bucket,
                from,
                to,
            );
            after_ops(slots, ops, to)[bucket as int].version.0 == if count > u64::MAX {
                count - u64::MAX - 1
            } else {
                count
            }
        }),
    decreases to,
{
    if to > 0 {
        ops[to - 1].bucket_facts();
    }
    if from < to {
        lemma_stores_through(slots, ops, bucket, from, (to - 1) as nat);
    } else if to > 0 {
        lemma_stores_through(slots, ops, bucket, (to - 1) as nat, (to - 1) as nat);
    }
}

/// An exclusive store that goes through uses up all tokens of its bucket: whatever the cores
/// do, no later exclusive store to any address of the bucket goes through with the same
/// count, as long as there are not more operations than there are counts.
pub proof fn tokens_are_used_once<A: VAddr>(
    monitor: ExclusiveMonitor<A>,
    ops: Seq<MonitorOp<A>>,
    i: int,
    j: int,
    addr: A,
    other: A,
    version: Version,
)
    requires
        monitor.wf(),
        0 <= i < j < ops.len(),
        j - i <= u64::MAX,
        ops[i] == (MonitorOp::Strex { addr, version }),
        ops[j] == (MonitorOp::Strex { addr: other, version }),
        other.bucket() == addr.bucket(),
        ops[i].goes_through(after_ops(monitor.reservations@, ops, i as nat)),
    ensures
        !ops[j].goes_through(after_ops(monitor.reservations@, ops, j as nat)),
{
    let slots = monitor.reservations@;
    addr.bucket_facts();
    lemma_stores_through(slots, ops, addr.bucket(), i as nat, j as nat);
    lemma_store_counts(slots, ops, addr.bucket(), i as nat, j as nat, i as nat);
}

/// Of two cores that reserve an address one after the other and then both store to it,
/// the one that stores first succeeds and the other one fails.
pub proof fn one_of_two_stores_succeeds<A: VAddr>(monitor: ExclusiveMonitor<A>, addr: A)
    requires
        monitor.wf(),
    ensures
        ({
            let load = MonitorOp::Ldrex { addr };
            let first = load.applied(monitor.reservations@);
            let second = load.applied(first);
            // Both loads leave the same count.
            let version = monitor.slot(addr).version;
            let store = MonitorOp::Strex { addr, version };
            &&& first[addr.bucket() as int].version == version
            &&& store.goes_through(second)
            &&& !store.goes_through(store.applied(second))
        }),
{
    addr.bucket_facts();
}

/// The address of the bucket of `addr` that was reserved last, by the operation `from` or
/// one of those behind it up to `to`, where `from` is a load-exclusive of `addr`.
pub open spec fn reserved_last<A: VAddr>(
    ops: Seq<MonitorOp<A>>,
    addr: A,
    from: nat,
    to: nat,
) -> A
    decreases to,
{
    if to <= from + 1 {
        addr
    } else {
        match ops[to - 1] {
            MonitorOp::Ldrex { addr: loaded } => if loaded.bucket() == addr.bucket() {
                loaded
            } else {
                reserved_last(ops, addr, from, (to - 1) as nat)
            },
            MonitorOp::Strex { .. } => reserved_last(ops, addr, from, (to - 1) as nat),
        }
    }
}

/// The reservation that the load-exclusive `from` made holds at the operation `to`, so that
/// a store-exclusive with its token goes through, exactly where no exclusive store of the
/// bucket went through in between and no other address of the bucket was reserved last.
/// Refused stores, and further loads of the same address, do no harm.
///
/// There may not be more operations in between than there are counts.
pub proof fn reservations_hold_until_disturbed<A: VAddr>(
    monitor: ExclusiveMonitor<A>,
    ops: Seq<MonitorOp<A>>,
    addr: A,
    from: nat,
    to: nat,
)
    requires
        monitor.wf(),
        from < to <= ops.len(),
        to - from <= u64::MAX,
        ops[from as int] == (MonitorOp::Ldrex { addr }),
    ensures
        ({
            let slots = monitor.reservations@;
            let version = after_ops(slots, ops, from)[addr.bucket() as int].version;
            (MonitorOp::Strex { addr, version }).goes_through(after_ops(slots, ops, to)) <==> {
                &&& forall|k: int|
                    from <= k < to && (#[trigger] ops[k]).bucket() == addr.bucket()
                        ==> !ops[k].goes_through(after_ops(slots, ops, k as nat))
                &&& reserved_last(ops, addr, from, to) == addr
            }
        }),
{
    let slots = monitor.reservations@;
    let b = addr.bucket();
    addr.bucket_facts();
    lemma_stores_through(slots, ops, b, from, to);
    lemma_reserved(slots, ops, addr, from, to);
    if exists|k: int|
        from <= k < to && (#[trigger] ops[k]).bucket() == b && ops[k].goes_through(
            after_ops(slots, ops, k as nat),
        ) {
        let k = choose|k: int|
            from <= k < to && (#[trigger] ops[k]).bucket() == b && ops[k].goes_through(
                after_ops(slots, ops, k as nat),
            );
        lemma_store_counts(slots, ops, b, from, to, k as nat);
    } else {
        lemma_no_store_counts(slots, ops, b, from, to);
    }
}

/// A store that goes through is counted.
proof fn lemma_store_counts<A: VAddr>(
    slots: Seq<ReservationSlot<A>>,
    ops: Seq<MonitorOp<A>>,
    bucket: nat,
    from: nat,
    to: nat,
    k: nat,
)
    requires
        from <= k < to <= ops.len(),
        ops[k as int].bucket() == bucket,
        ops[k as int].goes_through(after_ops(slots, ops, k)),
    ensures
        stores_through(slots, ops, bucket, from, to) > 0,
    decreases to,
{
    if k < to - 1 {
        lemma_store_counts(slots, ops, bucket, from, (to - 1) as nat, k);
    }
}

/// Where no store goes through, none is counted.
proof fn lemma_no_store_counts<A: VAddr>(
    slots: Seq<ReservationSlot<A>>,
    ops: Seq<MonitorOp<A>>,
    bucket: nat,
    from: nat,
    to: nat,
)
    requires
        from <= to <= ops.len(),
        forall|k: int|
            from <= k < to && (#[trigger] ops[k]).bucket() == bucket ==> !ops[k].goes_through(
                after_ops(slots, ops, k as nat),
            ),
    ensures
        stores_through(slots, ops, bucket, from, to) == 0,
    decreases to,
{
    if from < to {
        lemma_no_store_counts(slots, ops, bucket, from, (to - 1) as nat);
    }
}

/// A slot holds the address that was reserved last.
proof fn lemma_reserved<A: VAddr>(
    slots: Seq<ReservationSlot<A>>,
    ops: Seq<MonitorOp<A>>,
    addr: A,
    from: nat,
    to: nat,
)
    requires
        slots.len() == BUCKET_COUNT,
        from < to <= ops.len(),
        to - from <= u64::MAX,
        ops[from as int] == (MonitorOp::Ldrex { addr }),
    ensures
        after_ops(slots, ops, to)[addr.bucket() as int].address == reserved_last(
            ops,
            addr,
            from,
            to,
        ),
    decreases to,
{
    addr.bucket_facts();
    ops[to - 1].bucket_facts();
    lemma_stores_through(slots, ops, addr.bucket(), from, (to - 1) as nat);
    if from + 1 < to {
        lemma_reserved(slots, ops, addr, from, (to - 1) as nat);
    }
}

/// The state that the cores of a machine share.
pub struct CpuFabric<A> {
    pub monitor: ExclusiveMonitor<A>,
}

impl<A: VAddr> CpuFabric<A> {
    pub open spec fn wf(self) -> bool {
        self.monitor.wf()
    }

    /// The fabric of a machine at reset.
    pub fn new() -> (r: Self)
        ensures
            r.wf(),
            forall|i: int|
                0 <= i < BUCKET_COUNT ==> #[trigger] r.monitor.reservations@[i]
                    == ReservationSlot::<A>::spec_fresh(),
    {
        CpuFabric { monitor: ExclusiveMonitor::new() }
    }
}

impl<A: VAddr> Default for CpuFabric<A> {
    fn default() -> (r: Self)
        ensures
            r.wf(),
            forall|i: int|
                0 <= i < BUCKET_COUNT ==> #[trigger] r.monitor.reservations@[i]
                    == ReservationSlot::<A>::spec_fresh(),
    {
        Self::new()
    }
}

/// A load-exclusive reserves its address and nothing else: the slot of the address holds the
/// address and has counted no further, every other slot is as it was, and the token has the
/// count of the slot and the value that was read.
pub proof fn load_exclusive_reserves<A: VAddr, F: FnOnce() -> A::ExclusiveMonitorLoadValue>(
    before: ExclusiveMonitor<A>,
    after: ExclusiveMonitor<A>,
    addr: A,
    load_op: F,
    r: ReservationToken<A>,
)
    requires
        before.wf(),
        exists|monitor: &mut ExclusiveMonitor<A>|
            *monitor == before && *final(monitor) == after && #[trigger] call_ensures(
                ExclusiveMonitor::<A>::ldrex::<F>,
                (monitor, addr, load_op),
                r,
            ),
    ensures
        after.wf(),
        after.reservations@[addr.bucket() as int].address == addr,
        after.reservations@[addr.bucket() as int].version
            == before.reservations@[addr.bucket() as int].version,
        forall|i: int|
            0 <= i < BUCKET_COUNT && i != addr.bucket() ==> #[trigger] after.reservations@[i]
                == before.reservations@[i],
        r.version == before.reservations@[addr.bucket() as int].version,
        load_op.ensures((), r.value),
{
    addr.bucket_facts();
}

/// A store-exclusive writes exactly if the slot of its address holds the address and has not
/// counted on since the token was given out. It then gives what the write gives, whether that
/// succeeds or not, and the slot has counted once more. Otherwise it is refused and leaves
/// everything as it was. No other slot changes.
pub proof fn store_exclusive_needs_its_reservation<
    A: VAddr,
    R,
    F: FnOnce(A::ExclusiveMonitorLoadValue) -> Result<R, ()>,
>(
    before: ExclusiveMonitor<A>,
    after: ExclusiveMonitor<A>,
    addr: A,
    tok: ReservationToken<A>,
    store_op: F,
    r: Result<R, ()>,
)
    requires
        before.wf(),
        exists|monitor: &mut ExclusiveMonitor<A>|
            *monitor == before && *final(monitor) == after && #[trigger] call_ensures(
                ExclusiveMonitor::<A>::strex::<R, F>,
                (monitor, addr, tok, store_op),
                r,
            ),
    ensures
        after.wf(),
        ({
            let was = before.reservations@[addr.bucket() as int];
            let now = after.reservations@[addr.bucket() as int];
            if was.address == addr && was.version.0 == tok.version.0 {
                &&& store_op.ensures((tok.value,), r)
                &&& now.address == addr
                &&& now.version.0 == if was.version.0 == u64::MAX {
                    0
                } else {
                    was.version.0 + 1
                }
            } else {
                r is Err && now == was
            }
        }),
        forall|i: int|
            0 <= i < BUCKET_COUNT && i != addr.bucket() ==> #[trigger] after.reservations@[i]
                == before.reservations@[i],
{
    addr.bucket_facts();
}

/// Of two cores that load-exclusive the same address and then both store-exclusive to it, the
/// one that stores first writes what it read its token with, and the other one is refused,
/// even where the write of the first one failed.
pub proof fn first_store_wins<
    A: VAddr,
    R,
    L: FnOnce() -> A::ExclusiveMonitorLoadValue,
    F: FnOnce(A::ExclusiveMonitorLoadValue) -> Result<R, ()>,
>(
    monitors: Seq<ExclusiveMonitor<A>>,
    addr: A,
    loads: (L, L),
    tokens: (ReservationToken<A>, ReservationToken<A>),
    stores: (F, F),
    results: (Result<R, ()>, Result<R, ()>),
)
    requires
        monitors.len() == 5,
        monitors[0].wf(),
        exists|m: &mut ExclusiveMonitor<A>|
            *m == monitors[0] && *final(m) == monitors[1] && #[trigger] call_ensures(
                ExclusiveMonitor::<A>::ldrex::<L>,
                (m, addr, loads.0),
                tokens.0,
            ),
        exists|m: &mut ExclusiveMonitor<A>|
            *m == monitors[1] && *final(m) == monitors[2] && #[trigger] call_ensures(
                ExclusiveMonitor::<A>::ldrex::<L>,
                (m, addr, loads.1),
                tokens.1,
            ),
        exists|m: &mut ExclusiveMonitor<A>|
            *m == monitors[2] && *final(m) == monitors[3] && #[trigger] call_ensures(
                ExclusiveMonitor::<A>::strex::<R, F>,
                (m, addr, tokens.0, stores.0),
                results.0,
            ),
        exists|m: &mut ExclusiveMonitor<A>|
            *m == monitors[3] && *final(m) == monitors[4] && #[trigger] call_ensures(
                ExclusiveMonitor::<A>::strex::<R, F>,
                (m, addr, tokens.1, stores.1),
                results.1,
            ),
    ensures
        loads.0.ensures((), tokens.0.value),
        stores.0.ensures((tokens.0.value,), results.0),
        results.1 is Err,
        monitors[4].reservations@ == monitors[3].reservations@,
{
    addr.bucket_facts();
    load_exclusive_reserves(monitors[0], monitors[1], addr, loads.0, tokens.0);
    load_exclusive_reserves(monitors[1], monitors[2], addr, loads.1, tokens.1);
    store_exclusive_needs_its_reservation(
        monitors[2],
        monitors[3],
        addr,
        tokens.0,
        stores.0,
        results.0,
    );
    store_exclusive_needs_its_reservation(
        monitors[3],
        monitors[4],
        addr,
        tokens.1,
        stores.1,
        results.1,
    );
    assert(monitors[4].reservations@ =~= monitors[3].reservations@);
}

/// A fresh monitor has one slot per bucket, and none of them has counted or holds an address
/// other than the null address.
pub proof fn fresh_monitors_hold_nothing<A: VAddr>(r: ExclusiveMonitor<A>)
    requires
        call_ensures(ExclusiveMonitor::<A>::new, (), r),
    ensures
        r.wf(),
        r.reservations@.len() == 257,
        forall|i: int|
            0 <= i < 257 ==> (#[trigger] r.reservations@[i]).address == A::NULL
                && r.reservations@[i].version.0 == 0,
{
}

/// A fresh fabric has a fresh monitor, also where it is the default one.
pub proof fn fresh_fabrics_hold_nothing<A: VAddr>(r: CpuFabric<A>)
    requires
        call_ensures(CpuFabric::<A>::new, (), r) || call_ensures(CpuFabric::<A>::default, (), r),
    ensures
        r.wf(),
        r.monitor.reservations@.len() == 257,
        forall|i: int|
            0 <= i < 257 ==> (#[trigger] r.monitor.reservations@[i]).address == A::NULL
                && r.monitor.reservations@[i].version.0 == 0,
{
}

/// A monitor that is put in place is a fresh one.
pub proof fn monitors_put_in_place_are_fresh<A: VAddr>(
    this: &mut Option<ExclusiveMonitor<A>>,
    r: &mut ExclusiveMonitor<A>,
)
    requires
        call_ensures(ExclusiveMonitor::<A>::init, (this,), r),
    ensures
        *final(this) == Some(*final(r)),
        old(r).reservations@.len() == 257,
        forall|i: int|
            0 <= i < 257 ==> (#[trigger] old(r).reservations@[i]).address == A::NULL
                && old(r).reservations@[i].version.0 == 0,
{
}

/// A slot that an address is reserved in holds that address, and has counted no further. The
/// reservation can be claimed exactly with that address and that count, and only once: then the
/// slot has counted on.
pub proof fn reservations_are_claimed_once<A: VAddr>(
    slots: (ReservationSlot<A>, ReservationSlot<A>, ReservationSlot<A>),
    reserved: A,
    version: Version,
    addr: A,
    wanted: Version,
    r: bool,
)
    requires
        exists|slot: &mut ReservationSlot<A>|
            *slot == slots.0 && *final(slot) == slots.1 && #[trigger] call_ensures(
                ReservationSlot::<A>::reserve,
                (slot, reserved),
                version,
            ),
        exists|slot: &mut ReservationSlot<A>|
            *slot == slots.1 && *final(slot) == slots.2 && #[trigger] call_ensures(
                ReservationSlot::<A>::claim,
                (slot, addr, wanted),
                r,
            ),
    ensures
        version.0 == slots.0.version.0,
        slots.1.address == reserved,
        slots.1.version == version,
        r <==> addr == reserved && wanted.0 == version.0,
        slots.2.address == reserved,
        slots.2.version.0 == if !r {
            version.0 as int
        } else if version.0 == u64::MAX {
            0
        } else {
            version.0 + 1
        },
{
}

} // verus!
