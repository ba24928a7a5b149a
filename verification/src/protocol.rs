//! A run as a sequence of operations on the store, and what holds of the
//! tables after every one of them.

use crate::store_laws::{law_dequeue_exact, law_record_members, law_reconcile, law_well_formed};
use crate::tables::{hits, is_hit, keys, lemma_add_keys, lemma_hits_misses, misses, Tables};
use vstd::prelude::*;

verus! {

/// One operation on the store.
pub enum Op {
    /// Addresses are imported.
    Import(Seq<Seq<char>>),
    /// The classified addresses are struck from the pending ones.
    Reconcile,
    /// Up to so many pending addresses are handed out.
    Dequeue(nat),
    /// Every pending address is handed out.
    DequeueAll,
    /// The outcomes of probes are recorded.
    Record(Seq<(Seq<char>, bool, bool)>),
}

/// Where a run stands.
pub struct Run {
    /// The tables of the store.
    pub tables: Tables,
    /// The addresses that were handed out and whose outcome is not yet
    /// recorded.
    pub in_flight: Set<Seq<char>>,
    /// Whether addresses were imported since the last reconcile.
    pub unreconciled: bool,
}

/// The addresses of some outcomes.
pub open spec fn addresses(outcomes: Seq<(Seq<char>, bool, bool)>) -> Set<Seq<char>> {
    keys(outcomes).to_set()
}

impl Run {
    /// A run that begins on `tables`, with nothing handed out.
    pub open spec fn begin(tables: Tables) -> Run {
        Run { tables, in_flight: Set::empty(), unreconciled: true }
    }

    /// Whether `op` is in order where the run stands: no address is
    /// imported while it is in flight, nothing is handed out between an
    /// import and the reconcile that follows it, and outcomes are recorded
    /// of addresses in flight only, none of them both with and without a
    /// working port.
    pub open spec fn allows(self, op: Op) -> bool {
        match op {
            Op::Import(ips) => forall|i: int|
                0 <= i < ips.len() ==> !self.in_flight.contains(#[trigger] ips[i]),
            Op::Reconcile => true,
            Op::Dequeue(_) => !self.unreconciled,
            Op::DequeueAll => !self.unreconciled,
            Op::Record(outcomes) => {
                &&& forall|i: int|
                    0 <= i < outcomes.len() ==> self.in_flight.contains(
                        (#[trigger] outcomes[i]).0,
                    )
                &&& forall|i: int, j: int|
                    0 <= i < outcomes.len() && 0 <= j < outcomes.len() && is_hit(
                        #[trigger] outcomes[i],
                    ) && !is_hit(#[trigger] outcomes[j]) ==> outcomes[i].0 != outcomes[j].0
            },
        }
    }

    /// Where the run stands after `op`.
    pub open spec fn step(self, op: Op) -> Run {
        match op {
            Op::Import(ips) => Run {
                tables: self.tables.import(ips),
                unreconciled: true,
                ..self
            },
            Op::Reconcile => Run {
                tables: self.tables.reconcile(),
                unreconciled: false,
                ..self
            },
            Op::Dequeue(n) => Run {
                tables: self.tables.dequeue(n),
                in_flight: self.in_flight.union(self.tables.batch(n).to_set()),
                ..self
            },
            Op::DequeueAll => Run {
                tables: self.tables.drain(),
                in_flight: self.in_flight.union(self.tables.pending.to_set()),
                ..self
            },
            Op::Record(outcomes) => Run {
                tables: self.tables.record(outcomes),
                in_flight: self.in_flight.difference(addresses(outcomes)),
                ..self
            },
        }
    }

    /// Whether every one of `ops` is in order where the run stands when
    /// its turn comes.
    pub open spec fn allows_all(self, ops: Seq<Op>) -> bool
        decreases ops.len(),
    {
        ops.len() > 0 ==> self.allows(ops[0]) && self.step(ops[0]).allows_all(ops.drop_first())
    }

    /// Where the run stands after `ops`, one after the other.
    pub open spec fn steps(self, ops: Seq<Op>) -> Run
        decreases ops.len(),
    {
        if ops.len() == 0 {
            self
        } else {
            self.step(ops[0]).steps(ops.drop_first())
        }
    }

    /// What holds of a run at every moment: no table holds an address
    /// twice, no address is both failed and successful, no address in
    /// flight is in a table, and, but between an import and the reconcile
    /// that follows it, no pending address is classified.
    pub open spec fn sound(self) -> bool {
        &&& self.tables.wf()
        &&& self.tables.failed_set().disjoint(self.tables.success_set())
        &&& self.in_flight.disjoint(self.tables.pending_set())
        &&& self.in_flight.disjoint(self.tables.classified())
        &&& !self.unreconciled ==> self.tables.partitioned()
    }
}

/// A run may begin on any tables that hold no address twice and none both
/// as failed and as successful: on empty ones, among others.
pub proof fn law_begin(tables: Tables)
    requires
        tables.wf(),
        tables.failed_set().disjoint(tables.success_set()),
    ensures
        Run::begin(tables).sound(),
        Run::begin(Tables::empty()).sound(),
{
    assert(keys(Tables::empty().success) =~= Seq::empty());
}

/// An operation that is in order keeps a run sound.
pub proof fn law_step(run: Run, op: Op)
    requires
        run.sound(),
        run.allows(op),
    ensures
        run.step(op).sound(),
{
    let t = run.tables;
    let after = run.step(op);
    law_well_formed(t, Seq::empty(), 0, Seq::empty());
    match op {
        Op::Import(ips) => {
            law_well_formed(t, ips, 0, Seq::empty());
            lemma_add_keys(t.pending, ips);
            assert forall|ip: Seq<char>| after.in_flight.contains(ip) implies !after.tables.pending_set().contains(
                ip,
            ) by {
                if ips.contains(ip) {
                    let i = choose|i: int| 0 <= i < ips.len() && ips[i] == ip;
                }
                if t.pending.contains(ip) {
                    assert(t.pending_set().contains(ip));
                }
            }
        },
        Op::Reconcile => {
            law_reconcile(t);
            assert forall|ip: Seq<char>| after.in_flight.contains(ip) implies !after.tables.pending_set().contains(
                ip,
            ) by {
                if t.pending.contains(ip) {
                    assert(t.pending_set().contains(ip));
                }
            }
        },
        Op::Dequeue(n) => {
            law_well_formed(t, Seq::empty(), n, Seq::empty());
            law_dequeue_exact(t, n);
            lemma_dequeue_sound(run, n);
        },
        Op::DequeueAll => {
            law_dequeue_exact(t, t.pending.len());
            lemma_dequeue_sound(run, t.pending.len());
        },
        Op::Record(outcomes) => {
            law_well_formed(t, Seq::empty(), 0, outcomes);
            law_record_members(t, outcomes);
            lemma_hits_misses(outcomes);
            assert forall|ip: Seq<char>| after.tables.failed_set().contains(ip) implies !after.tables.success_set().contains(
                ip,
            ) by {
                if misses(outcomes).contains(ip) {
                    let j = choose|j: int|
                        0 <= j < outcomes.len() && !is_hit(#[trigger] outcomes[j]) && outcomes[j].0
                            == ip;
                    assert(run.in_flight.contains(ip));
                    assert(!t.classified().contains(ip));
                    if keys(hits(outcomes)).contains(ip) {
                        let i = choose|i: int|
                            0 <= i < outcomes.len() && is_hit(#[trigger] outcomes[i])
                                && outcomes[i].0 == ip;
                    }
                } else {
                    assert(t.failed_set().contains(ip));
                    if keys(hits(outcomes)).contains(ip) {
                        let i = choose|i: int|
                            0 <= i < outcomes.len() && is_hit(#[trigger] outcomes[i])
                                && outcomes[i].0 == ip;
                        assert(run.in_flight.contains(ip));
                        assert(t.classified().contains(ip));
                    } else {
                        assert(!t.success_set().contains(ip));
                    }
                }
            }
            assert forall|ip: Seq<char>| after.in_flight.contains(ip) implies !after.tables.classified().contains(
                ip,
            ) by {
                assert(run.in_flight.contains(ip) && !addresses(outcomes).contains(ip));
                assert(!t.classified().contains(ip));
                if misses(outcomes).contains(ip) {
                    let j = choose|j: int|
                        0 <= j < outcomes.len() && !is_hit(#[trigger] outcomes[j]) && outcomes[j].0
                            == ip;
                    assert(keys(outcomes)[j] == ip);
                }
                if keys(hits(outcomes)).contains(ip) {
                    let i = choose|i: int|
                        0 <= i < outcomes.len() && is_hit(#[trigger] outcomes[i]) && outcomes[i].0
                            == ip;
                    assert(keys(outcomes)[i] == ip);
                }
            }
            if !run.unreconciled {
                assert forall|ip: Seq<char>| after.tables.pending_set().contains(ip) implies !after.tables.classified().contains(
                    ip,
                ) by {
                    assert(t.pending_set().contains(ip));
                    assert(!run.in_flight.contains(ip));
                    assert(!t.classified().contains(ip));
                    if misses(outcomes).contains(ip) {
                        let j = choose|j: int|
                            0 <= j < outcomes.len() && !is_hit(#[trigger] outcomes[j])
                                && outcomes[j].0 == ip;
                    }
                    if keys(hits(outcomes)).contains(ip) {
                        let i = choose|i: int|
                            0 <= i < outcomes.len() && is_hit(#[trigger] outcomes[i])
                                && outcomes[i].0 == ip;
                    }
                }
            }
        },
    }
}

/// Handing out pending addresses of a reconciled, sound run leaves it sound.
proof fn lemma_dequeue_sound(run: Run, n: nat)
    requires
        run.sound(),
        !run.unreconciled,
    ensures
        (Run {
            tables: run.tables.dequeue(n),
            in_flight: run.in_flight.union(run.tables.batch(n).to_set()),
            ..run
        }).sound(),
{
    let t = run.tables;
    let rest = t.dequeue(n);
    let in_flight = run.in_flight.union(t.batch(n).to_set());
    law_well_formed(t, Seq::empty(), n, Seq::empty());
    law_dequeue_exact(t, n);
    assert forall|ip: Seq<char>| rest.pending_set().contains(ip) implies t.pending_set().contains(
        ip,
    ) && !in_flight.contains(ip) by {
        let k = t.batch_len(n) as int;
        let j = choose|j: int| 0 <= j < rest.pending.len() && rest.pending[j] == ip;
        assert(t.pending[j + k] == ip);
        assert(t.pending_set().contains(ip));
    }
    assert forall|ip: Seq<char>| in_flight.contains(ip) implies !rest.classified().contains(
        ip,
    ) by {
        if t.batch(n).contains(ip) {
            assert(t.pending_set().contains(ip));
        }
    }
}

/// No address is ever in two of the three tables: after any operations that
/// are in order, on a run that was sound, the run is sound; and once it is
/// reconciled the three tables are apart.
pub proof fn law_partition(run: Run, ops: Seq<Op>)
    requires
        run.sound(),
        run.allows_all(ops),
    ensures
        run.steps(ops).sound(),
        !run.steps(ops).unreconciled ==> run.steps(ops).tables.partitioned(),
    decreases ops.len(),
{
    if ops.len() > 0 {
        law_step(run, ops[0]);
        law_partition(run.step(ops[0]), ops.drop_first());
    }
}

} // verus!
