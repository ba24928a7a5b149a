//! What holds of the candidate store whatever it is asked to do.

use crate::tables::{
    flags_of, hits, http_keys, https_keys, is_hit, keys, lemma_add_keys, lemma_add_keys_fresh,
    lemma_add_keys_joined, lemma_add_keys_known, lemma_flags_append, lemma_flags_of,
    lemma_flags_put_rows, lemma_flags_swap, lemma_hits_misses, lemma_push_contains,
    lemma_put_row, lemma_put_rows, lemma_sift, lemma_sift_all, misses, put_rows, Tables,
};
use vstd::prelude::*;

verus! {

/// Every operation keeps the store well formed: no table holds an address
/// twice afterwards.
pub proof fn law_well_formed(
    t: Tables,
    ips: Seq<Seq<char>>,
    n: nat,
    outcomes: Seq<(Seq<char>, bool, bool)>,
)
    requires
        t.wf(),
    ensures
        Tables::empty().wf(),
        t.import(ips).wf(),
        t.reconcile().wf(),
        t.dequeue(n).wf(),
        t.drain().wf(),
        t.put_failed(ips).wf(),
        t.put_success(outcomes).wf(),
        t.record(outcomes).wf(),
{
    assert(keys(Tables::empty().success) =~= Seq::empty());
    lemma_add_keys(t.pending, ips);
    lemma_sift(t.pending, t.classified(), false);
    lemma_add_keys(t.failed, ips);
    lemma_put_rows(t.success, outcomes);
    lemma_add_keys(t.failed, misses(outcomes));
    lemma_put_rows(t.success, hits(outcomes));
}

/// Importing addresses a second time changes nothing, and an address that
/// comes twice in one import is taken once.
pub proof fn law_import_idempotent(t: Tables, ips: Seq<Seq<char>>)
    ensures
        t.import(ips).import(ips) == t.import(ips),
        t.import(ips + ips) == t.import(ips),
{
    let once = t.import(ips).pending;
    lemma_add_keys(t.pending, ips);
    assert forall|i: int| 0 <= i < ips.len() implies once.contains(#[trigger] ips[i]) by {
        assert(ips.contains(ips[i]));
    }
    lemma_add_keys_known(once, ips);
    lemma_add_keys_joined(t.pending, ips, ips);
}

/// After an import each imported address is pending, exactly once, and
/// what was pending before still is, in its place.
pub proof fn law_import_dedup(t: Tables, ips: Seq<Seq<char>>)
    requires
        t.wf(),
    ensures
        t.import(ips).pending.no_duplicates(),
        forall|ip: Seq<char>|
            t.import(ips).pending.contains(ip) <==> t.pending.contains(ip) || ips.contains(ip),
        t.import(ips).pending.take(t.pending.len() as int) == t.pending,
{
    lemma_add_keys(t.pending, ips);
}

/// Importing distinct addresses of which none is pending, into a store with
/// no failed and no successful address, and then reconciling, leaves them
/// all pending behind those that were: the pending count grows by their
/// number.
pub proof fn law_import_count(t: Tables, ips: Seq<Seq<char>>)
    requires
        ips.no_duplicates(),
        forall|i: int| 0 <= i < ips.len() ==> !t.pending.contains(#[trigger] ips[i]),
        t.failed.len() == 0,
        t.success.len() == 0,
    ensures
        t.import(ips).reconcile().pending == t.pending + ips,
        t.import(ips).reconcile().pending.len() == t.pending.len() + ips.len(),
{
    lemma_add_keys_fresh(t.pending, ips);
    let imported = t.import(ips);
    assert(keys(t.success) =~= Seq::empty());
    assert forall|i: int| 0 <= i < imported.pending.len() implies !imported.classified().contains(
        #[trigger] imported.pending[i],
    ) by {
        let ip = imported.pending[i];
        if t.failed.contains(ip) {
            let j = choose|j: int| 0 <= j < t.failed.len() && t.failed[j] == ip;
        }
        if keys(t.success).contains(ip) {
            let j = choose|j: int| 0 <= j < keys(t.success).len() && keys(t.success)[j] == ip;
        }
    }
    lemma_sift_all(imported.pending, imported.classified(), false);
}

/// Reconciling leaves no pending address that is classified, keeps every
/// other pending address, and touches neither of the other tables; the three
/// tables are then apart exactly if the failed and the successful were.
pub proof fn law_reconcile(t: Tables)
    ensures
        t.reconcile().pending_set().disjoint(t.reconcile().classified()),
        forall|ip: Seq<char>|
            t.reconcile().pending.contains(ip) <==> t.pending.contains(ip)
                && !t.classified().contains(ip),
        forall|ip: Seq<char>|
            t.stale().contains(ip) <==> t.pending.contains(ip) && t.classified().contains(ip),
        t.reconcile().failed == t.failed,
        t.reconcile().success == t.success,
        t.reconcile().partitioned() <==> t.failed_set().disjoint(t.success_set()),
        t.partitioned() ==> t.reconcile() == t,
{
    lemma_sift(t.pending, t.classified(), false);
    lemma_sift(t.pending, t.classified(), true);
    let after = t.reconcile();
    assert forall|ip: Seq<char>| after.pending_set().contains(ip) implies !after.failed_set().contains(
        ip,
    ) && !after.success_set().contains(ip) by {
        assert(!t.classified().contains(ip));
    }
    if t.partitioned() {
        assert forall|i: int| 0 <= i < t.pending.len() implies !t.classified().contains(
            #[trigger] t.pending[i],
        ) by {
            assert(t.pending_set().contains(t.pending[i]));
        }
        lemma_sift_all(t.pending, t.classified(), false);
    }
}

/// An import keeps the three tables apart exactly if they were apart and
/// none of the imported addresses is classified.
pub proof fn law_import_partition(t: Tables, ips: Seq<Seq<char>>)
    ensures
        t.import(ips).partitioned() <==> t.partitioned() && forall|i: int|
            0 <= i < ips.len() ==> !t.classified().contains(#[trigger] ips[i]),
{
    lemma_add_keys(t.pending, ips);
    let after = t.import(ips);
    if after.partitioned() {
        assert forall|i: int| 0 <= i < ips.len() implies !t.classified().contains(
            #[trigger] ips[i],
        ) by {
            assert(ips.contains(ips[i]));
            assert(after.pending_set().contains(ips[i]));
        }
        assert forall|ip: Seq<char>| t.pending_set().contains(ip) implies !t.failed_set().contains(
            ip,
        ) && !t.success_set().contains(ip) by {
            assert(after.pending_set().contains(ip));
        }
    }
    if t.partitioned() && forall|i: int|
        0 <= i < ips.len() ==> !t.classified().contains(#[trigger] ips[i]) {
        assert forall|ip: Seq<char>| after.pending_set().contains(ip) implies !t.classified().contains(
            ip,
        ) by {
            if ips.contains(ip) {
                let i = choose|i: int| 0 <= i < ips.len() && ips[i] == ip;
            } else {
                assert(t.pending_set().contains(ip));
            }
        }
    }
}

/// An import that is followed by a reconcile leaves the three tables apart
/// whatever was imported, provided that the failed and the successful were
/// apart.
pub proof fn law_import_then_reconcile(t: Tables, ips: Seq<Seq<char>>)
    ensures
        t.import(ips).reconcile().partitioned() <==> t.failed_set().disjoint(t.success_set()),
{
    law_reconcile(t.import(ips));
}

/// A dequeue hands out as many addresses as were asked for, or all where
/// there are fewer; they are the oldest, none of them is pending afterwards,
/// and the pending count falls by their number.
pub proof fn law_dequeue_exact(t: Tables, n: nat)
    requires
        t.wf(),
    ensures
        t.batch(n).len() == if n <= t.pending.len() {
            n
        } else {
            t.pending.len()
        },
        t.dequeue(n).pending.len() == t.pending.len() - t.batch(n).len(),
        t.pending == t.batch(n) + t.dequeue(n).pending,
        t.batch(n).no_duplicates(),
        forall|ip: Seq<char>|
            t.batch(n).contains(ip) ==> t.pending.contains(ip) && !t.dequeue(n).pending.contains(
                ip,
            ),
        forall|ip: Seq<char>|
            t.pending.contains(ip) ==> t.batch(n).contains(ip) || t.dequeue(n).pending.contains(ip),
        t.dequeue(t.pending.len()) == t.drain(),
        t.batch(t.pending.len()) == t.pending,
{
    let k = t.batch_len(n) as int;
    let batch = t.batch(n);
    let rest = t.dequeue(n).pending;
    assert(t.pending =~= batch + rest);
    assert forall|ip: Seq<char>| batch.contains(ip) implies t.pending.contains(ip)
        && !rest.contains(ip) by {
        let i = choose|i: int| 0 <= i < batch.len() && batch[i] == ip;
        assert(t.pending[i] == ip);
        if rest.contains(ip) {
            let j = choose|j: int| 0 <= j < rest.len() && rest[j] == ip;
            assert(t.pending[j + k] == ip);
        }
    }
    assert forall|ip: Seq<char>| t.pending.contains(ip) implies batch.contains(ip)
        || rest.contains(ip) by {
        let i = choose|i: int| 0 <= i < t.pending.len() && t.pending[i] == ip;
        if i < k {
            assert(batch[i] == ip);
        } else {
            assert(rest[i - k] == ip);
        }
    }
    assert(t.pending.skip(t.pending.len() as int) =~= Seq::empty());
    assert(t.pending.take(t.pending.len() as int) =~= t.pending);
}

/// A dequeue keeps the three tables apart.
pub proof fn law_dequeue_partition(t: Tables, n: nat)
    requires
        t.partitioned(),
    ensures
        t.dequeue(n).partitioned(),
        t.drain().partitioned(),
{
    let rest = t.dequeue(n).pending;
    let k = t.batch_len(n) as int;
    assert forall|ip: Seq<char>| rest.contains(ip) implies t.pending_set().contains(ip) by {
        let j = choose|j: int| 0 <= j < rest.len() && rest[j] == ip;
        assert(t.pending[j + k] == ip);
    }
}

/// Which addresses are in which table after outcomes were recorded: the
/// pending as before, the failed and those that came without a working port,
/// the successful and those that came with one.
pub proof fn law_record_members(t: Tables, outcomes: Seq<(Seq<char>, bool, bool)>)
    requires
        t.wf(),
    ensures
        t.record(outcomes).pending == t.pending,
        forall|ip: Seq<char>|
            t.record(outcomes).failed.contains(ip) <==> t.failed.contains(ip) || misses(
                outcomes,
            ).contains(ip),
        forall|ip: Seq<char>|
            keys(t.record(outcomes).success).contains(ip) <==> keys(t.success).contains(ip) || keys(
                hits(outcomes),
            ).contains(ip),
        forall|i: int|
            0 <= i < outcomes.len() ==> (if is_hit(#[trigger] outcomes[i]) {
                keys(t.record(outcomes).success).contains(outcomes[i].0)
            } else {
                t.record(outcomes).failed.contains(outcomes[i].0)
            }),
{
    lemma_add_keys(t.failed, misses(outcomes));
    lemma_put_rows(t.success, hits(outcomes));
    lemma_hits_misses(outcomes);
}

/// Recording outcomes in tables that are apart leaves them apart exactly if
/// the tables admit the outcomes.
pub proof fn law_record_partition(t: Tables, outcomes: Seq<(Seq<char>, bool, bool)>)
    requires
        t.wf(),
        t.partitioned(),
    ensures
        t.record(outcomes).partitioned() <==> t.admits(outcomes),
{
    let after = t.record(outcomes);
    law_record_members(t, outcomes);
    lemma_hits_misses(outcomes);
    if t.admits(outcomes) {
        assert forall|ip: Seq<char>| after.pending_set().contains(ip) implies !after.failed_set().contains(
            ip,
        ) && !after.success_set().contains(ip) by {
            assert(t.pending_set().contains(ip));
            if misses(outcomes).contains(ip) {
                let i = choose|i: int|
                    0 <= i < outcomes.len() && !is_hit(#[trigger] outcomes[i]) && outcomes[i].0
                        == ip;
            }
            if keys(hits(outcomes)).contains(ip) {
                let i = choose|i: int|
                    0 <= i < outcomes.len() && is_hit(#[trigger] outcomes[i]) && outcomes[i].0
                        == ip;
            }
        }
        assert forall|ip: Seq<char>| after.failed_set().contains(ip) implies !after.success_set().contains(
            ip,
        ) by {
            if keys(hits(outcomes)).contains(ip) {
                let i = choose|i: int|
                    0 <= i < outcomes.len() && is_hit(#[trigger] outcomes[i]) && outcomes[i].0
                        == ip;
                if misses(outcomes).contains(ip) {
                    let j = choose|j: int|
                        0 <= j < outcomes.len() && !is_hit(#[trigger] outcomes[j]) && outcomes[j].0
                            == ip;
                }
            } else if keys(t.success).contains(ip) {
                assert(t.success_set().contains(ip));
                if misses(outcomes).contains(ip) {
                    let j = choose|j: int|
                        0 <= j < outcomes.len() && !is_hit(#[trigger] outcomes[j]) && outcomes[j].0
                            == ip;
                } else {
                    assert(t.failed_set().contains(ip));
                }
            }
        }
    }
    if after.partitioned() {
        assert forall|i: int| 0 <= i < outcomes.len() implies !t.pending.contains(
            (#[trigger] outcomes[i]).0,
        ) by {
            let ip = outcomes[i].0;
            if t.pending.contains(ip) {
                assert(after.pending_set().contains(ip));
                assert(after.failed_set().contains(ip) || after.success_set().contains(ip));
            }
        }
        assert forall|i: int|
            0 <= i < outcomes.len() && is_hit(#[trigger] outcomes[i]) implies !t.failed.contains(
            outcomes[i].0,
        ) by {
            let ip = outcomes[i].0;
            if t.failed.contains(ip) {
                assert(after.failed_set().contains(ip));
                assert(after.success_set().contains(ip));
            }
        }
        assert forall|i: int|
            0 <= i < outcomes.len() && !is_hit(#[trigger] outcomes[i]) implies !keys(
            t.success,
        ).contains(outcomes[i].0) by {
            let ip = outcomes[i].0;
            if keys(t.success).contains(ip) {
                assert(after.failed_set().contains(ip));
                assert(after.success_set().contains(ip));
            }
        }
        assert forall|i: int, j: int|
            0 <= i < outcomes.len() && 0 <= j < outcomes.len() && is_hit(#[trigger] outcomes[i])
                && !is_hit(#[trigger] outcomes[j]) implies outcomes[i].0 != outcomes[j].0 by {
            let ip = outcomes[i].0;
            if ip == outcomes[j].0 {
                assert(after.failed_set().contains(ip));
                assert(after.success_set().contains(ip));
            }
        }
    }
}

/// The flags that stay recorded for an address are those of the last
/// outcome that came for it with a working port; a successful address for
/// which none came keeps its row.
pub proof fn law_record_flags(t: Tables, outcomes: Seq<(Seq<char>, bool, bool)>, i: int)
    requires
        t.wf(),
    ensures
        0 <= i < outcomes.len() && is_hit(outcomes[i]) && (forall|j: int|
            i < j < outcomes.len() && is_hit(#[trigger] outcomes[j]) ==> outcomes[j].0
                != outcomes[i].0) ==> t.record(outcomes).success.contains(outcomes[i]),
        forall|row: (Seq<char>, bool, bool)|
            t.success.contains(row) && !keys(hits(outcomes)).contains(row.0) ==> t.record(
                outcomes,
            ).success.contains(row),
    decreases outcomes.len(),
{
    if outcomes.len() > 0 {
        let rest = outcomes.drop_last();
        let last = outcomes.last();
        let before = put_rows(t.success, hits(rest));
        lemma_put_rows(t.success, hits(rest));
        lemma_put_row(before, last);
        assert(outcomes[outcomes.len() - 1] == last);
        if is_hit(last) {
            assert(hits(outcomes).drop_last() =~= hits(rest));
            assert(hits(outcomes).last() == last);
            assert(keys(hits(outcomes)) =~= keys(hits(rest)).push(last.0));
        }
        if 0 <= i < outcomes.len() && is_hit(outcomes[i]) && (forall|j: int|
            i < j < outcomes.len() && is_hit(#[trigger] outcomes[j]) ==> outcomes[j].0
                != outcomes[i].0) {
            if i < rest.len() {
                assert(rest[i] == outcomes[i]);
                assert forall|j: int| i < j < rest.len() && is_hit(#[trigger] rest[j]) implies rest[j].0
                    != rest[i].0 by {
                    assert(rest[j] == outcomes[j]);
                    assert(is_hit(outcomes[j]));
                }
                law_record_flags(t, rest, i);
                assert(before.contains(outcomes[i]));
                if is_hit(last) {
                    assert(is_hit(outcomes[outcomes.len() - 1]));
                    assert(last.0 != outcomes[i].0);
                }
            }
        }
        law_record_flags(t, rest, -1);
        assert forall|row: (Seq<char>, bool, bool)|
            t.success.contains(row) && !keys(hits(outcomes)).contains(row.0) implies t.record(
            outcomes,
        ).success.contains(row) by {
            if is_hit(last) {
                lemma_push_contains(keys(hits(rest)), last.0, row.0);
            }
            assert(before.contains(row));
        }
    }
}

/// An address is exported as working over http exactly if its row has the
/// http flag, and likewise over https: one with both flags is in both lists.
pub proof fn law_export(t: Tables, ip: Seq<char>)
    ensures
        t.http_capable().contains(ip) <==> exists|i: int|
            0 <= i < t.success.len() && (#[trigger] t.success[i]).0 == ip && t.success[i].1,
        t.https_capable().contains(ip) <==> exists|i: int|
            0 <= i < t.success.len() && (#[trigger] t.success[i]).0 == ip && t.success[i].2,
    decreases t.success.len(),
{
    let rows = t.success;
    if rows.len() > 0 {
        let rest = Tables { success: rows.drop_last(), ..t };
        let last = rows.last();
        law_export(rest, ip);
        assert(rows[rows.len() - 1] == last);
        lemma_push_contains(http_keys(rest.success), last.0, ip);
        lemma_push_contains(https_keys(rest.success), last.0, ip);
        if exists|i: int|
            0 <= i < rest.success.len() && (#[trigger] rest.success[i]).0 == ip
                && rest.success[i].1 {
            let i = choose|i: int|
                0 <= i < rest.success.len() && (#[trigger] rest.success[i]).0 == ip
                    && rest.success[i].1;
            assert(rows[i].0 == ip && rows[i].1);
        }
        if exists|i: int|
            0 <= i < rest.success.len() && (#[trigger] rest.success[i]).0 == ip
                && rest.success[i].2 {
            let i = choose|i: int|
                0 <= i < rest.success.len() && (#[trigger] rest.success[i]).0 == ip
                    && rest.success[i].2;
            assert(rows[i].0 == ip && rows[i].2);
        }
        if exists|i: int| 0 <= i < rows.len() && (#[trigger] rows[i]).0 == ip && rows[i].1 {
            let i = choose|i: int| 0 <= i < rows.len() && (#[trigger] rows[i]).0 == ip && rows[i].1;
            if i < rest.success.len() {
                assert(rest.success[i].0 == ip && rest.success[i].1);
            }
        }
        if exists|i: int| 0 <= i < rows.len() && (#[trigger] rows[i]).0 == ip && rows[i].2 {
            let i = choose|i: int| 0 <= i < rows.len() && (#[trigger] rows[i]).0 == ip && rows[i].2;
            if i < rest.success.len() {
                assert(rest.success[i].0 == ip && rest.success[i].2);
            }
        }
    }
}

/// After outcomes were recorded, the flags that stand for an address are
/// those of the last outcome that came for it with a working port, or, where
/// none came, those that stood before.
pub proof fn law_record_last_wins(t: Tables, outcomes: Seq<(Seq<char>, bool, bool)>)
    requires
        t.wf(),
    ensures
        t.record(outcomes).flags() == flags_of(t.success + hits(outcomes)),
        forall|ip: Seq<char>|
            t.record(outcomes).flags().contains_key(ip) <==> t.record(outcomes).success_set().contains(
                ip,
            ),
{
    lemma_flags_put_rows(t.success, hits(outcomes));
    lemma_flags_of(t.record(outcomes).success);
}

/// Every outcome goes to one table and to no other: it counts among the
/// hits or among the misses, as its flags say.
pub proof fn law_record_split(outcomes: Seq<(Seq<char>, bool, bool)>)
    ensures
        hits(outcomes).len() + misses(outcomes).len() == outcomes.len(),
        forall|i: int|
            0 <= i < outcomes.len() ==> (if is_hit(#[trigger] outcomes[i]) {
                hits(outcomes).contains(outcomes[i])
            } else {
                misses(outcomes).contains(outcomes[i].0)
            }),
        forall|i: int| 0 <= i < hits(outcomes).len() ==> is_hit(#[trigger] hits(outcomes)[i]),
    decreases outcomes.len(),
{
    lemma_hits_misses(outcomes);
    if outcomes.len() > 0 {
        law_record_split(outcomes.drop_last());
    }
}

/// The outcomes of two batches may be recorded in either order: where no
/// address is in both, the same addresses are pending, failed and
/// successful afterwards, with the same flags.
pub proof fn law_record_order(
    t: Tables,
    first: Seq<(Seq<char>, bool, bool)>,
    second: Seq<(Seq<char>, bool, bool)>,
)
    requires
        t.wf(),
        forall|i: int, j: int|
            0 <= i < first.len() && 0 <= j < second.len() ==> (#[trigger] first[i]).0
                != (#[trigger] second[j]).0,
    ensures
        t.record(first).record(second).pending == t.record(second).record(first).pending,
        t.record(first).record(second).failed_set() == t.record(second).record(first).failed_set(),
        t.record(first).record(second).success_set() == t.record(second).record(
            first,
        ).success_set(),
        t.record(first).record(second).flags() == t.record(second).record(first).flags(),
{
    let one = t.record(first);
    let other = t.record(second);
    let a = one.record(second);
    let b = other.record(first);
    law_well_formed(t, Seq::empty(), 0, first);
    law_well_formed(t, Seq::empty(), 0, second);
    law_record_members(t, first);
    law_record_members(t, second);
    law_record_members(one, second);
    law_record_members(other, first);
    assert forall|ip: Seq<char>| a.failed_set().contains(ip) <==> b.failed_set().contains(ip) by {
        assert(a.failed.contains(ip) <==> one.failed.contains(ip) || misses(second).contains(ip));
        assert(one.failed.contains(ip) <==> t.failed.contains(ip) || misses(first).contains(ip));
        assert(b.failed.contains(ip) <==> other.failed.contains(ip) || misses(first).contains(ip));
        assert(other.failed.contains(ip) <==> t.failed.contains(ip) || misses(second).contains(
            ip,
        ));
    }
    assert(a.failed_set() =~= b.failed_set());
    assert forall|ip: Seq<char>| a.success_set().contains(ip) <==> b.success_set().contains(
        ip,
    ) by {
        assert(keys(a.success).contains(ip) <==> keys(one.success).contains(ip) || keys(
            hits(second),
        ).contains(ip));
        assert(keys(one.success).contains(ip) <==> keys(t.success).contains(ip) || keys(
            hits(first),
        ).contains(ip));
        assert(keys(b.success).contains(ip) <==> keys(other.success).contains(ip) || keys(
            hits(first),
        ).contains(ip));
        assert(keys(other.success).contains(ip) <==> keys(t.success).contains(ip) || keys(
            hits(second),
        ).contains(ip));
    }
    assert(a.success_set() =~= b.success_set());

    lemma_hits_misses(first);
    lemma_hits_misses(second);
    let h1 = hits(first);
    let h2 = hits(second);
    assert forall|i: int, j: int| 0 <= i < h1.len() && 0 <= j < h2.len() implies (#[trigger] h1[i]).0
        != (#[trigger] h2[j]).0 by {
        assert(keys(h1)[i] == h1[i].0);
        assert(keys(h2)[j] == h2[j].0);
        assert(keys(h1).contains(h1[i].0));
        assert(keys(h2).contains(h2[j].0));
        let k = choose|k: int|
            0 <= k < first.len() && is_hit(#[trigger] first[k]) && first[k].0 == h1[i].0;
        let m = choose|m: int|
            0 <= m < second.len() && is_hit(#[trigger] second[m]) && second[m].0 == h2[j].0;
        assert(first[k].0 != second[m].0);
    }
    lemma_flags_put_rows(t.success, h1);
    lemma_flags_put_rows(t.success, h2);
    lemma_flags_put_rows(one.success, h2);
    lemma_flags_put_rows(other.success, h1);
    lemma_flags_append(one.success, t.success + h1, h2);
    lemma_flags_append(other.success, t.success + h2, h1);
    lemma_flags_swap(t.success, h1, h2);
}

} // verus!
