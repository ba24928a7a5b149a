//! When a run goes through the pool, and what the pool does next.

use crate::tables::Tables;
use vstd::prelude::*;

verus! {

/// How a run goes about the pending addresses.
#[derive(Clone, Copy, Debug, PartialEq, Eq, Structural)]
pub enum Plan {
    /// All of them in one batch, probed at once.
    Single,
    /// Batch by batch, through the pool.
    Pooled,
}

/// The plan for `pending` addresses where a batch holds up to `max_ip`:
/// one batch where they fit into one.
pub open spec fn plan_for(pending: nat, max_ip: nat) -> Plan {
    if pending <= max_ip {
        Plan::Single
    } else {
        Plan::Pooled
    }
}

/// Decides how a run goes about `pending` addresses where a batch holds up
/// to `max_ip`.
pub fn plan(pending: usize, max_ip: usize) -> (plan: Plan)
    ensures
        plan == plan_for(pending as nat, max_ip as nat),
{
    if pending <= max_ip {
        Plan::Single
    } else {
        Plan::Pooled
    }
}

/// What the pool does next.
#[derive(Clone, Copy, Debug, PartialEq, Eq, Structural)]
pub enum Move {
    /// Dequeue this many addresses, start a batch on them, then pause for
    /// the start interval.
    Start(usize),
    /// Wait for the oldest batch under way, record its outcomes, then
    /// record those of every other batch that has ended.
    Wait,
    /// Nothing is left to do, or nothing can be done.
    Stop,
}

/// How many addresses the next batch takes: a full batch, or what is left.
pub open spec fn batch_size(pending: nat, max_ip: nat) -> nat {
    if max_ip <= pending {
        max_ip
    } else {
        pending
    }
}

/// The pool's next move with `pending` addresses in the queue and `active`
/// batches under way, where up to `threads` batches run at a time and a
/// batch holds up to `max_ip` addresses. While addresses are pending it
/// starts a batch where one more may run and waits where none may; when
/// none is pending it waits until every batch has ended, and then stops.
/// Where a batch may hold no address, or no batch may run, none is ever
/// started.
pub open spec fn move_for(pending: nat, active: nat, threads: nat, max_ip: nat) -> Move {
    if pending > 0 && active < threads && max_ip > 0 {
        Move::Start(batch_size(pending, max_ip) as usize)
    } else if active > 0 {
        Move::Wait
    } else {
        Move::Stop
    }
}

/// Decides the pool's next move.
pub fn next_move(pending: usize, active: usize, threads: usize, max_ip: usize) -> (step: Move)
    ensures
        step == move_for(pending as nat, active as nat, threads as nat, max_ip as nat),
{
    if pending > 0 && active < threads && max_ip > 0 {
        if max_ip <= pending {
            Move::Start(max_ip)
        } else {
            Move::Start(pending)
        }
    } else if active > 0 {
        Move::Wait
    } else {
        Move::Stop
    }
}

/// The sizes of the batches that the pool starts on `pending` addresses,
/// one after the other, until none is pending.
pub open spec fn batch_sizes(pending: nat, max_ip: nat) -> Seq<nat>
    decreases pending,
{
    if pending == 0 || max_ip == 0 {
        Seq::empty()
    } else {
        seq![batch_size(pending, max_ip)] + batch_sizes(
            (pending - batch_size(pending, max_ip)) as nat,
            max_ip,
        )
    }
}

/// The sum of some sizes.
pub open spec fn total(sizes: Seq<nat>) -> nat
    decreases sizes.len(),
{
    if sizes.len() == 0 {
        0
    } else {
        sizes[0] + total(sizes.drop_first())
    }
}

/// The batches that the pool dequeues from `t`, one after the other, until
/// no address is pending.
pub open spec fn batches(t: Tables, max_ip: nat) -> Seq<Seq<Seq<char>>>
    decreases t.pending.len(),
{
    if t.pending.len() == 0 || max_ip == 0 {
        Seq::empty()
    } else {
        seq![t.batch(max_ip)] + batches(t.dequeue(max_ip), max_ip)
    }
}

/// Some batches, joined in order.
pub open spec fn joined(batches: Seq<Seq<Seq<char>>>) -> Seq<Seq<char>>
    decreases batches.len(),
{
    if batches.len() == 0 {
        Seq::empty()
    } else {
        batches[0] + joined(batches.drop_first())
    }
}

/// The moves of a pool that is left to itself, from `pending` addresses in
/// the queue and `active` batches under way until it stops: every wait ends
/// with one batch recorded.
pub open spec fn moves(pending: nat, active: nat, threads: nat, max_ip: nat) -> Seq<Move>
    decreases pending, active,
{
    match move_for(pending, active, threads, max_ip) {
        Move::Start(n) => seq![Move::Start(n)] + moves(
            (pending - batch_size(pending, max_ip)) as nat,
            active + 1,
            threads,
            max_ip,
        ),
        Move::Wait => seq![Move::Wait] + moves(pending, (active - 1) as nat, threads, max_ip),
        Move::Stop => seq![Move::Stop],
    }
}

/// The sizes of the batches started in some moves, in order.
pub open spec fn started(moves: Seq<Move>) -> Seq<nat>
    decreases moves.len(),
{
    if moves.len() == 0 {
        Seq::empty()
    } else {
        match moves[0] {
            Move::Start(n) => seq![n as nat] + started(moves.drop_first()),
            _ => started(moves.drop_first()),
        }
    }
}

/// How many of some moves are waits.
pub open spec fn waits(moves: Seq<Move>) -> nat
    decreases moves.len(),
{
    if moves.len() == 0 {
        0
    } else {
        match moves[0] {
            Move::Wait => 1 + waits(moves.drop_first()),
            _ => waits(moves.drop_first()),
        }
    }
}

/// The batches of a run are full but for the last, none is empty, and
/// together they hold every pending address: there are as many as full
/// batches go into the pending count, and one more where something is left.
pub proof fn law_batch_sizes(pending: nat, max_ip: nat)
    requires
        max_ip >= 1,
    ensures
        forall|i: int|
            0 <= i < batch_sizes(pending, max_ip).len() ==> 1 <= #[trigger] batch_sizes(
                pending,
                max_ip,
            )[i] <= max_ip,
        forall|i: int|
            0 <= i < batch_sizes(pending, max_ip).len() - 1 ==> #[trigger] batch_sizes(
                pending,
                max_ip,
            )[i] == max_ip,
        total(batch_sizes(pending, max_ip)) == pending,
        (batch_sizes(pending, max_ip).len() - 1) * max_ip < pending || pending == 0,
        pending <= batch_sizes(pending, max_ip).len() * max_ip,
    decreases pending,
{
    if pending > 0 {
        let k = batch_size(pending, max_ip);
        let rest = batch_sizes((pending - k) as nat, max_ip);
        let all = batch_sizes(pending, max_ip);
        law_batch_sizes((pending - k) as nat, max_ip);
        assert(all.drop_first() =~= rest);
        assert forall|i: int| 0 <= i < all.len() implies 1 <= #[trigger] all[i] <= max_ip by {
            if i > 0 {
                assert(all[i] == rest[i - 1]);
            }
        }
        assert forall|i: int| 0 <= i < all.len() - 1 implies #[trigger] all[i] == max_ip by {
            if i > 0 {
                assert(all[i] == rest[i - 1]);
            } else {
                assert(rest.len() > 0);
                assert(pending - k > 0);
            }
        }
        assert((all.len() - 1) * max_ip < pending && pending <= all.len() * max_ip) by (nonlinear_arith)
            requires
                all.len() == rest.len() + 1,
                k <= max_ip,
                1 <= k <= pending,
                pending - k > 0 ==> k == max_ip,
                (rest.len() - 1) * max_ip < pending - k || pending - k == 0,
                pending - k <= rest.len() * max_ip,
                pending - k == 0 ==> rest.len() == 0,
        ;
    }
}

/// Where the pending addresses fit into one batch the run is one batch of
/// them all; where they do not, and a batch holds at least one address, the
/// pool dequeues two batches or more, none larger than a batch may be.
pub proof fn law_threshold(t: Tables, max_ip: nat)
    ensures
        t.pending.len() <= max_ip ==> plan_for(t.pending.len(), max_ip) == Plan::Single
            && t.batch(t.pending.len()) == t.pending && t.dequeue(t.pending.len()).pending.len()
            == 0,
        t.pending.len() > max_ip ==> plan_for(t.pending.len(), max_ip) == Plan::Pooled,
        t.pending.len() > max_ip >= 1 ==> batches(t, max_ip).len() >= 2 && forall|i: int|
            0 <= i < batches(t, max_ip).len() ==> 1 <= (#[trigger] batches(t, max_ip)[i]).len()
                <= max_ip,
{
    assert(t.pending.take(t.pending.len() as int) =~= t.pending);
    if t.pending.len() > max_ip >= 1 {
        law_batches(t, max_ip);
        law_batch_sizes(t.pending.len(), max_ip);
        let sizes = batch_sizes(t.pending.len(), max_ip);
        assert(sizes.len() >= 2) by (nonlinear_arith)
            requires
                t.pending.len() > max_ip,
                t.pending.len() <= sizes.len() * max_ip,
        ;
    }
}

/// The batches that the pool dequeues have the sizes of `batch_sizes`, and
/// joined in order they are the pending addresses as they were: each is
/// handed out once.
pub proof fn law_batches(t: Tables, max_ip: nat)
    ensures
        batches(t, max_ip).len() == batch_sizes(t.pending.len(), max_ip).len(),
        forall|i: int|
            0 <= i < batches(t, max_ip).len() ==> (#[trigger] batches(t, max_ip)[i]).len()
                == batch_sizes(t.pending.len(), max_ip)[i],
        max_ip >= 1 ==> joined(batches(t, max_ip)) == t.pending,
    decreases t.pending.len(),
{
    if t.pending.len() > 0 && max_ip > 0 {
        let rest = t.dequeue(max_ip);
        let all = batches(t, max_ip);
        let sizes = batch_sizes(t.pending.len(), max_ip);
        law_batches(rest, max_ip);
        assert(rest.pending.len() == t.pending.len() - batch_size(t.pending.len(), max_ip));
        assert(all.drop_first() =~= batches(rest, max_ip));
        assert forall|i: int| 0 <= i < all.len() implies (#[trigger] all[i]).len() == sizes[i] by {
            if i > 0 {
                assert(all[i] == batches(rest, max_ip)[i - 1]);
            }
        }
        assert(t.batch(max_ip) + rest.pending =~= t.pending);
    }
}

/// A pool that is left to itself comes to a stop, and by then it has
/// waited once for each batch that was under way or that it started. Where
/// a batch may run and may hold an address, the batches it starts are those
/// of `batch_sizes`.
pub proof fn law_pool_run(pending: nat, active: nat, threads: nat, max_ip: nat)
    requires
        pending <= usize::MAX,
    ensures
        moves(pending, active, threads, max_ip).last() == Move::Stop,
        waits(moves(pending, active, threads, max_ip)) == active + started(
            moves(pending, active, threads, max_ip),
        ).len(),
        threads >= 1 && max_ip >= 1 ==> started(moves(pending, active, threads, max_ip))
            == batch_sizes(pending, max_ip),
    decreases pending, active,
{
    let run = moves(pending, active, threads, max_ip);
    match move_for(pending, active, threads, max_ip) {
        Move::Start(n) => {
            let k = batch_size(pending, max_ip);
            let rest = moves((pending - k) as nat, active + 1, threads, max_ip);
            law_pool_run((pending - k) as nat, active + 1, threads, max_ip);
            assert(run.drop_first() =~= rest);
            assert(n == k);
            assert(run.last() == rest.last());
            assert(batch_sizes(pending, max_ip).drop_first() =~= batch_sizes(
                (pending - k) as nat,
                max_ip,
            ));
            assert(started(run) == seq![k] + started(rest));
            assert(waits(run) == waits(rest));
        },
        Move::Wait => {
            let rest = moves(pending, (active - 1) as nat, threads, max_ip);
            law_pool_run(pending, (active - 1) as nat, threads, max_ip);
            assert(run.drop_first() =~= rest);
            assert(run.last() == rest.last());
            assert(waits(run) == 1 + waits(rest));
        },
        Move::Stop => {
            assert(run.drop_first() =~= Seq::empty());
            assert(started(run.drop_first()) =~= Seq::empty());
            assert(waits(run.drop_first()) == 0);
        },
    }
}

} // verus!
