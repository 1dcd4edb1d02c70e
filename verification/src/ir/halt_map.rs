//! The halt states that wait on the edges of the control flow graph.

use vstd::prelude::*;
use crate::ir::arena::ArenaMap;
use crate::ir::halt_state::HaltState;
use crate::ir::Block;

verus! {

/// The state in which control arrives from the block `from`.
pub struct Arrival {
    pub from: Block,
    pub state: HaltState,
}

/// The states of the edges, by the block that an edge leads to.
///
/// The state of an edge is that at the end of the block it starts from.
pub struct HaltStateMap {
    pub incoming_edges: ArenaMap<Vec<Arrival>>,
}

/// The place of the arrival from `from`.
pub open spec fn arrives(arrivals: Seq<Arrival>, from: Block, i: int) -> bool {
    0 <= i < arrivals.len() && arrivals[i].from == from
}

/// `arrivals` with `from` renamed to `to`.
pub open spec fn renamed(arrivals: Seq<Arrival>, from: Block, to: Block) -> Seq<Arrival> {
    Seq::new(
        arrivals.len(),
        |i: int|
            if arrivals[i].from == from {
                Arrival { from: to, state: arrivals[i].state }
            } else {
                arrivals[i]
            },
    )
}

impl HaltStateMap {
    /// The arrivals at the block `to`.
    pub open spec fn arrivals(self, to: Block) -> Seq<Arrival> {
        match self.incoming_edges.at(to) {
            Some(list) => list@,
            None => Seq::empty(),
        }
    }

    /// No edge has two states.
    pub open spec fn wf(self) -> bool {
        forall|to: Block, i: int, j: int|
            0 <= i < self.arrivals(to).len() && 0 <= j < self.arrivals(to).len() && i != j
                ==> #[trigger] self.arrivals(to)[i].from != #[trigger] self.arrivals(to)[j].from
    }

    /// A map without edges.
    pub fn new() -> (r: Self)
        ensures
            r.wf(),
            forall|to: Block| (#[trigger] r.arrivals(to)).len() == 0,
    {
        let r = HaltStateMap { incoming_edges: ArenaMap::new() };
        assert forall|to: Block| (#[trigger] r.arrivals(to)).len() == 0 by {
            assert(r.incoming_edges.at(to) is None);
        }
        r
    }

    /// Sets the state of the edge from `from` to `to`, and returns what it was.
    pub fn add_edge(&mut self, from: Block, to: Block, state: HaltState) -> (r: Option<HaltState>)
        requires
            old(self).wf(),
        ensures
            final(self).wf(),
            forall|k: Block| k != to ==> #[trigger] final(self).arrivals(k) == old(self).arrivals(k),
            match r {
                Some(previous) => exists|i: int| #[trigger]
                    arrives(old(self).arrivals(to), from, i) && previous == old(self).arrivals(
                        to,
                    )[i].state && final(self).arrivals(to) == old(self).arrivals(to).update(
                        i,
                        Arrival { from, state },
                    ),
                None => (forall|i: int| !#[trigger] arrives(old(self).arrivals(to), from, i))
                    && final(self).arrivals(to) == old(self).arrivals(to).push(
                    Arrival { from, state },
                ),
            },
    {
        let ghost before = self.arrivals(to);
        let mut list: Vec<Arrival> = match self.incoming_edges.remove(to) {
            Some(list) => list,
            None => Vec::new(),
        };
        proof {
            assert(list@ =~= before);
            assert forall|k: Block| k != to implies #[trigger] self.arrivals(k) == old(self).arrivals(
                k,
            ) by {
                assert(self.incoming_edges.at(k) == old(self).incoming_edges.at(k));
            }
        }
        let ghost map1 = *self;
        let total: usize = list.len();
        let mut i: usize = 0;
        while i < total && list[i].from != from
            invariant
                i <= total == list@.len(),
                forall|j: int| 0 <= j < i ==> (#[trigger] list@[j]).from != from,
            decreases total - i,
        {
            i = i + 1;
        }
        if i < total {
            let mut fresh = Arrival { from, state };
            let ghost next = fresh;
            core::mem::swap(&mut list[i], &mut fresh);
            let ghost after = list@;
            self.incoming_edges.insert(to, list);
            proof {
                assert(arrives(before, from, i as int));
                assert(after =~= before.update(i as int, next));
                old(self).lemma_changed(map1, *self, to);
            }
            Some(fresh.state)
        } else {
            let ghost next = Arrival { from, state };
            list.push(Arrival { from, state });
            let ghost after = list@;
            self.incoming_edges.insert(to, list);
            proof {
                assert(after =~= before.push(next));
                assert forall|j: int| !#[trigger] arrives(before, from, j) by {
                    if arrives(before, from, j) {
                        assert(before[j].from == from);
                    }
                }
                old(self).lemma_changed(map1, *self, to);
            }
            None
        }
    }

    /// One list was replaced by another one without repetition.
    proof fn lemma_changed(self, between: Self, after: Self, to: Block)
        requires
            self.wf(),
            forall|k: Block| k != to ==> #[trigger] between.arrivals(k) == self.arrivals(k),
            forall|k: Block|
                k != to ==> #[trigger] after.incoming_edges.at(k) == between.incoming_edges.at(k),
            forall|i: int, j: int|
                0 <= i < after.arrivals(to).len() && 0 <= j < after.arrivals(to).len() && i != j
                    ==> #[trigger] after.arrivals(to)[i].from != #[trigger] after.arrivals(to)[j].from,
        ensures
            after.wf(),
            forall|k: Block| k != to ==> #[trigger] after.arrivals(k) == self.arrivals(k),
    {
        assert forall|k: Block| k != to implies #[trigger] after.arrivals(k) == self.arrivals(k) by {
            assert(after.incoming_edges.at(k) == between.incoming_edges.at(k));
            assert(between.arrivals(k) == self.arrivals(k));
        }
        assert forall|k: Block, i: int, j: int|
            0 <= i < after.arrivals(k).len() && 0 <= j < after.arrivals(k).len() && i
                != j implies #[trigger] after.arrivals(k)[i].from != #[trigger] after.arrivals(
            k,
        )[j].from by {
            if k != to {
                assert(self.arrivals(k)[i].from != self.arrivals(k)[j].from);
            }
        }
    }

    /// Takes the states of all edges to `towards` out of the map, the youngest edge
    /// first.
    pub fn drain_incoming(&mut self, towards: Block) -> (r: Vec<(Block, HaltState)>)
        requires
            old(self).wf(),
        ensures
            final(self).wf(),
            r@ == Seq::new(
                old(self).arrivals(towards).len(),
                |i: int|
                    (
                        towards,
                        old(self).arrivals(towards)[old(self).arrivals(towards).len() - 1 - i].state,
                    ),
            ),
            final(self).arrivals(towards).len() == 0,
            forall|k: Block|
                k != towards ==> #[trigger] final(self).arrivals(k) == old(self).arrivals(k),
    {
        let ghost before = self.arrivals(towards);
        let mut list: Vec<Arrival> = match self.incoming_edges.remove(towards) {
            Some(list) => list,
            None => Vec::new(),
        };
        assert(list@ =~= before.take(before.len() as int));
        let mut drained: Vec<(Block, HaltState)> = Vec::new();
        while list.len() > 0
            invariant
                list@.len() + drained@.len() == before.len(),
                list@ == before.take(list@.len() as int),
                drained@ == Seq::new(
                    drained@.len(),
                    |i: int| (towards, before[before.len() - 1 - i].state),
                ),
            decreases list@.len(),
        {
            let ghost done = drained@.len() as int;
            let arrival = list.pop().unwrap();
            assert(arrival == before[before.len() - 1 - done]);
            drained.push((towards, arrival.state));
            assert(list@ =~= before.take(list@.len() as int));
            assert(drained@ =~= Seq::new(
                drained@.len(),
                |i: int| (towards, before[before.len() - 1 - i].state),
            ));
        }
        proof {
            assert forall|k: Block| k != towards implies #[trigger] self.arrivals(k) == old(
                self).arrivals(k) by {
                assert(self.incoming_edges.at(k) == old(self).incoming_edges.at(k));
            }
            old(self).lemma_changed(*self, *self, towards);
        }
        drained
    }

    /// Moves the start of all edges that start from `from` to `to`, which no edge
    /// starts from yet.
    pub fn rename(&mut self, from: Block, to: Block)
        requires
            old(self).wf(),
            from != to,
            forall|k: Block, i: int|
                0 <= i < old(self).arrivals(k).len() ==> (#[trigger] old(self).arrivals(k)[i]).from
                    != to,
        ensures
            final(self).wf(),
            forall|k: Block| #[trigger]
                final(self).arrivals(k) == renamed(old(self).arrivals(k), from, to),
    {
        let total: usize = self.incoming_edges.slots.len();
        let mut key: usize = 0;
        while key < total
            invariant
                key <= total == old(self).incoming_edges.slots@.len()
                    == self.incoming_edges.slots@.len(),
                forall|k: Block|
                    #![trigger self.arrivals(k)]
                    #![trigger old(self).arrivals(k)]
                    self.arrivals(k) == if k < key {
                        renamed(old(self).arrivals(k), from, to)
                    } else {
                        old(self).arrivals(k)
                    },
            decreases total - key,
        {
            let ghost map0 = *self;
            let ghost before = self.arrivals(key);
            assert(before == old(self).arrivals(key));
            match self.incoming_edges.slots[key].take() {
                Some(mut list) => {
                    let count: usize = list.len();
                    let mut i: usize = 0;
                    while i < count
                        invariant
                            i <= count == list@.len() == before.len(),
                            forall|j: int|
                                0 <= j < count ==> #[trigger] list@[j] == if j < i {
                                    renamed(before, from, to)[j]
                                } else {
                                    before[j]
                                },
                        decreases count - i,
                    {
                        if list[i].from == from {
                            list[i].from = to;
                        }
                        i = i + 1;
                    }
                    assert(list@ =~= renamed(before, from, to));
                    self.incoming_edges.slots[key] = Some(list);
                },
                None => {
                    assert(before =~= renamed(before, from, to));
                },
            }
            proof {
                assert forall|k: Block|
                    #![trigger self.arrivals(k)]
                    #![trigger old(self).arrivals(k)]
                    self.arrivals(k) == if k < key + 1 {
                        renamed(old(self).arrivals(k), from, to)
                    } else {
                        old(self).arrivals(k)
                    } by {
                    if k != key {
                        assert(self.incoming_edges.at(k) == map0.incoming_edges.at(k));
                        assert(self.arrivals(k) == map0.arrivals(k));
                    }
                }
            }
            key = key + 1;
        }
        proof {
            assert forall|k: Block| #[trigger]
                self.arrivals(k) == renamed(old(self).arrivals(k), from, to) by {
                if k >= total {
                    assert(old(self).arrivals(k).len() == 0);
                    assert(renamed(old(self).arrivals(k), from, to) =~= old(self).arrivals(k));
                }
            }
            assert forall|k: Block, i: int, j: int|
                0 <= i < self.arrivals(k).len() && 0 <= j < self.arrivals(k).len() && i
                    != j implies #[trigger] self.arrivals(k)[i].from != #[trigger] self.arrivals(
                k,
            )[j].from by {
                assert(old(self).arrivals(k)[i].from != old(self).arrivals(k)[j].from);
            }
        }
    }
}

} // verus!
