//! The countdown to the next halt check.

use vstd::prelude::*;
use crate::ir;
use crate::ir::{Stmt, StmtData};

verus! {

/// A queue of safepoints.
#[verifier::external_body]
pub struct SafepointQueue {
    inner: rpds::Queue<Stmt>,
}

/// The safepoints of a queue, oldest first.
pub uninterp spec fn queued(queue: SafepointQueue) -> Seq<usize>;

impl SafepointQueue {
    /// `rpds::Queue::new`: an empty queue.
    #[verifier::external_body]
    fn new() -> (r: Self)
        ensures
            queued(r) == Seq::<usize>::empty(),
    {
        SafepointQueue { inner: rpds::Queue::new() }
    }

    /// `rpds::Queue::enqueue_mut`: puts a safepoint at the end.
    #[verifier::external_body]
    fn enqueue(&mut self, safepoint: Stmt)
        ensures
            queued(*final(self)) == queued(*old(self)).push(safepoint),
    {
        self.inner.enqueue_mut(safepoint)
    }

    /// `rpds::Queue::dequeue_mut`: takes the oldest safepoint off, and says whether
    /// there was one.
    #[verifier::external_body]
    fn dequeue(&mut self) -> (r: bool)
        ensures
            r == (queued(*old(self)).len() > 0),
            r ==> queued(*final(self)) == queued(*old(self)).drop_first(),
            !r ==> queued(*final(self)) == queued(*old(self)),
    {
        self.inner.dequeue_mut()
    }

    /// `rpds::Queue::len`: how many safepoints the queue holds.
    #[verifier::external_body]
    fn len(&self) -> (r: usize)
        ensures
            r == queued(*self).len(),
    {
        self.inner.len()
    }

    /// `rpds::Queue::clone`: a queue of the same safepoints.
    #[verifier::external_body]
    fn duplicate(&self) -> (r: Self)
        ensures
            queued(r) == queued(*self),
    {
        SafepointQueue { inner: self.inner.clone() }
    }
}

/// The states that arrive at a merge.
#[verifier::external_body]
pub struct IncomingStates {
    inner: smallvec::SmallVec<[HaltState; 32]>,
}

/// The states of a list, in order.
pub uninterp spec fn arriving(list: IncomingStates) -> Seq<HaltState>;

impl IncomingStates {
    /// `smallvec::SmallVec::new`: an empty list.
    #[verifier::external_body]
    pub(crate) fn new() -> (r: Self)
        ensures
            arriving(r) == Seq::<HaltState>::empty(),
    {
        IncomingStates { inner: smallvec::SmallVec::new() }
    }

    /// `smallvec::SmallVec::push`: puts a state at the end.
    #[verifier::external_body]
    pub(crate) fn push(&mut self, state: HaltState)
        ensures
            arriving(*final(self)) == arriving(*old(self)).push(state),
    {
        self.inner.push(state)
    }

    /// `smallvec::SmallVec::as_slice`: the states as a slice.
    #[verifier::external_body]
    pub(crate) fn as_slice(&self) -> (r: &[HaltState])
        ensures
            r@ == arriving(*self),
    {
        self.inner.as_slice()
    }
}

/// Whether a halt check is due.
#[derive(Clone, Copy, PartialEq, Eq, Structural, Debug)]
pub struct ShouldHalt(pub bool);

/// The state at the end of one path: after `remaining` more safepoints a halt check
/// is due.
///
/// Where a halt check is due after every `n` safepoints, the path has seen
/// `n - remaining` of them since the last one.
pub struct HaltState {
    pub remaining: usize,
    pub suffix_safepoints: SafepointQueue,
}

/// The countdown after one more safepoint, where a halt check is due after every `n`.
pub open spec fn counted_down(remaining: nat, n: nat) -> nat {
    if remaining <= 1 {
        n
    } else {
        (remaining - 1) as nat
    }
}

/// The countdown after the statements `stmts`.
pub open spec fn countdown_after(
    kinds: Seq<StmtData>,
    stmts: Seq<Stmt>,
    remaining: nat,
    n: nat,
) -> nat
    decreases stmts.len(),
{
    if stmts.len() == 0 {
        remaining
    } else {
        countdown_after(
            kinds,
            stmts.drop_first(),
            if ir::is_safepoint(kinds, stmts[0]) {
                counted_down(remaining, n)
            } else {
                remaining
            },
            n,
        )
    }
}

/// The history after one more safepoint: the safepoints since the last halt check, at
/// most `n` of them.
pub open spec fn history_grown(
    history: Seq<usize>,
    safepoint: Stmt,
    remaining: nat,
    n: nat,
) -> Seq<usize> {
    let grown = history.push(safepoint);
    if remaining <= 1 {
        Seq::empty()
    } else if grown.len() > n {
        grown.drop_first()
    } else {
        grown
    }
}

/// The history after the statements `stmts`.
pub open spec fn history_after(
    kinds: Seq<StmtData>,
    stmts: Seq<Stmt>,
    remaining: nat,
    history: Seq<usize>,
    n: nat,
) -> Seq<usize>
    decreases stmts.len(),
{
    if stmts.len() == 0 {
        history
    } else if ir::is_safepoint(kinds, stmts[0]) {
        history_after(
            kinds,
            stmts.drop_first(),
            counted_down(remaining, n),
            history_grown(history, stmts[0], remaining, n),
            n,
        )
    } else {
        history_after(kinds, stmts.drop_first(), remaining, history, n)
    }
}

/// Where the first halt check goes: behind the safepoint that ends the countdown.
pub open spec fn first_cut(kinds: Seq<StmtData>, stmts: Seq<Stmt>, remaining: nat) -> Option<nat>
    decreases stmts.len(),
{
    if stmts.len() == 0 {
        None
    } else if ir::is_safepoint(kinds, stmts[0]) && remaining <= 1 {
        Some(1)
    } else {
        let rest = first_cut(
            kinds,
            stmts.drop_first(),
            if ir::is_safepoint(kinds, stmts[0]) {
                (remaining - 1) as nat
            } else {
                remaining
            },
        );
        match rest {
            Some(at) => Some(at + 1),
            None => None,
        }
    }
}

/// The pieces that halt checks cut the statements of a block into, where a halt
/// check is due after `remaining` safepoints at first, and after every `n` then.
pub open spec fn pieces(
    kinds: Seq<StmtData>,
    stmts: Seq<Stmt>,
    remaining: nat,
    n: nat,
) -> Seq<Seq<Stmt>>
    decreases stmts.len(),
{
    match first_cut(kinds, stmts, remaining) {
        None => seq![stmts],
        Some(at) => if 0 < at <= stmts.len() {
            seq![stmts.take(at as int)] + pieces(kinds, stmts.skip(at as int), n, n)
        } else {
            seq![stmts]
        },
    }
}

impl HaltState {
    /// A state with an empty history.
    pub fn from_remaining(remaining: usize) -> (r: Self)
        ensures
            r.remaining == remaining,
            queued(r.suffix_safepoints) == Seq::<usize>::empty(),
    {
        HaltState { remaining, suffix_safepoints: SafepointQueue::new() }
    }

    /// The same state once more.
    pub fn duplicate(&self) -> (r: Self)
        ensures
            r.remaining == self.remaining,
            queued(r.suffix_safepoints) == queued(self.suffix_safepoints),
    {
        HaltState {
            remaining: self.remaining,
            suffix_safepoints: self.suffix_safepoints.duplicate(),
        }
    }

    /// How many safepoints the history holds.
    pub fn suffix_len(&self) -> (r: usize)
        ensures
            r == queued(self.suffix_safepoints).len(),
    {
        self.suffix_safepoints.len()
    }

    /// Counts a safepoint, and says whether a halt check is due behind it.
    ///
    /// The history holds the safepoints since the last halt check, at most
    /// `halt_check_every` of them.
    pub fn push_safepoint(&mut self, halt_check_every: usize, safepoint: Stmt) -> (r: ShouldHalt)
        requires
            old(self).remaining > 0,
            halt_check_every > 0,
        ensures
            r.0 == (old(self).remaining == 1),
            final(self).remaining == counted_down(
                old(self).remaining as nat,
                halt_check_every as nat,
            ),
            final(self).remaining > 0,
            queued(final(self).suffix_safepoints) == history_grown(
                queued(old(self).suffix_safepoints),
                safepoint,
                old(self).remaining as nat,
                halt_check_every as nat,
            ),
    {
        let new_remaining: usize = self.remaining - 1;
        let halt = ShouldHalt(new_remaining == 0);
        if halt.0 {
            // There is never a need to keep suffix history before this point,
            // because after a halt check the countdown starts anew.
            self.remaining = halt_check_every;
            self.suffix_safepoints = SafepointQueue::new();
        } else {
            self.remaining = new_remaining;
            self.suffix_safepoints.enqueue(safepoint);
            if self.suffix_safepoints.len() > halt_check_every {
                self.suffix_safepoints.dequeue();
            }
        }
        halt
    }

    /// The state at a merge of the paths that arrive in the states `incoming`.
    ///
    /// The lowest countdown wins: a halt check may come earlier than it would have
    /// to on one of the paths, but never too late. The history is kept where there
    /// is one path only.
    pub fn merge_halt_states(halt_check_every: usize, incoming: &[HaltState]) -> (r: HaltState)
        ensures
            incoming@.len() == 0 ==> r.remaining == halt_check_every,
            incoming@.len() > 0 ==> exists|i: int|
                0 <= i < incoming@.len() && r.remaining == (#[trigger] incoming@[i]).remaining,
            forall|i: int|
                0 <= i < incoming@.len() ==> r.remaining <= (#[trigger] incoming@[i]).remaining,
            queued(r.suffix_safepoints) == if incoming@.len() == 1 {
                queued(incoming@[0].suffix_safepoints)
            } else {
                Seq::<usize>::empty()
            },
    {
        let total: usize = incoming.len();
        if total == 0 {
            // No incoming edges: start afresh.
            return HaltState::from_remaining(halt_check_every);
        }
        if total == 1 {
            // One predecessor: its history holds here too.
            let state = incoming[0].duplicate();
            assert(state.remaining == incoming@[0].remaining);
            return state;
        }
        let mut lowest: usize = incoming[0].remaining;
        let mut i: usize = 1;
        while i < total
            invariant
                1 <= i <= total == incoming@.len(),
                exists|j: int| 0 <= j < i && lowest == (#[trigger] incoming@[j]).remaining,
                forall|j: int| 0 <= j < i ==> lowest <= (#[trigger] incoming@[j]).remaining,
            decreases total - i,
        {
            if incoming[i].remaining < lowest {
                lowest = incoming[i].remaining;
            }
            i = i + 1;
        }
        HaltState::from_remaining(lowest)
    }
}

} // verus!
