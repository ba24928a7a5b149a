//! The candidate store: three tables of addresses, keyed by the address text.

use crate::tables::{
    add_key, add_keys, hits, http_keys, https_keys, keys, lemma_push_contains, lemma_sift, misses,
    put_rows, sift, Tables,
};
use std::collections::VecDeque;
use vstd::hash_map::StringHashMap;
use vstd::hash_set::StringHashSet;
use vstd::prelude::*;
use vstd::std_specs::vecdeque::VecDequeAdditionalSpecFns;

verus! {

/// The text a boolean column is written as: `TRUE` or `FALSE`.
pub open spec fn bool_text(b: bool) -> Seq<char> {
    if b {
        seq!['T', 'R', 'U', 'E']
    } else {
        seq!['F', 'A', 'L', 'S', 'E']
    }
}

/// Renders a flag as the text of a boolean column.
pub fn bool_2_str(b: bool) -> (s: &'static str)
    ensures
        s@ == bool_text(b),
{
    proof {
        reveal_strlit("TRUE");
        reveal_strlit("FALSE");
    }
    if b {
        "TRUE"
    } else {
        "FALSE"
    }
}

/// Reads a flag back from an integer column: zero is false, all else true.
pub fn int_2_bool(i: i32) -> (b: bool)
    ensures
        b == (i != 0),
{
    !(i == 0)
}

/// The candidate store: the pending, failed and successful addresses.
///
/// Each table is kept in the order in which its addresses came, beside an
/// index by address. A store is well formed, `wf()`, when no table holds an
/// address twice and each index agrees with its table; every operation
/// keeps it so.
pub struct CoreDb {
    src: VecDeque<String>,
    src_index: StringHashSet,
    faild: Vec<String>,
    faild_index: StringHashSet,
    success: Vec<(String, bool, bool)>,
    success_index: StringHashMap<usize>,
}

impl View for CoreDb {
    type V = Tables;

    closed spec fn view(&self) -> Tables {
        Tables {
            pending: self.src.deep_view(),
            failed: self.faild.deep_view(),
            success: self.success.deep_view(),
        }
    }
}

/// Whether `index` gives each row of `rows` its place, and nothing else.
spec fn places(index: Map<Seq<char>, usize>, rows: Seq<(Seq<char>, bool, bool)>) -> bool {
    &&& forall|ip: Seq<char>| index.contains_key(ip) <==> keys(rows).contains(ip)
    &&& forall|i: int| 0 <= i < rows.len() ==> index[#[trigger] keys(rows)[i]] == i
}

/// Whether `index` holds the members of `table`, and nothing else.
spec fn members(index: Set<Seq<char>>, table: Seq<Seq<char>>) -> bool {
    forall|ip: Seq<char>| index.contains(ip) <==> table.contains(ip)
}

/// Adds `ip` to `table` and its index unless it is there.
fn add_ip(table: &mut Vec<String>, index: &mut StringHashSet, ip: &String) -> (fresh: bool)
    requires
        members(old(index)@, old(table).deep_view()),
    ensures
        members(final(index)@, final(table).deep_view()),
        final(table).deep_view() == add_key(old(table).deep_view(), ip@),
        fresh == !old(table).deep_view().contains(ip@),
{
    if index.contains(ip.as_str()) {
        false
    } else {
        let ghost before = table.deep_view();
        index.insert(ip.clone());
        table.push(ip.clone());
        proof {
            assert(table.deep_view() =~= before.push(ip@));
            assert forall|other: Seq<char>| index@.contains(other) <==> table.deep_view().contains(
                other,
            ) by {
                lemma_push_contains(before, ip@, other);
            }
        }
        true
    }
}

impl CoreDb {
    /// Whether the store is well formed.
    pub closed spec fn wf(&self) -> bool {
        &&& self@.wf()
        &&& members(self.src_index@, self@.pending)
        &&& members(self.faild_index@, self@.failed)
        &&& places(self.success_index@, self@.success)
    }

    /// A well-formed store holds no address twice in a table.
    pub proof fn lemma_wf(&self)
        requires
            self.wf(),
        ensures
            self@.wf(),
    {
    }

    /// An empty store.
    pub fn new() -> (db: CoreDb)
        ensures
            db@ == Tables::empty(),
            db.wf(),
    {
        let db = CoreDb {
            src: VecDeque::new(),
            src_index: StringHashSet::new(),
            faild: Vec::new(),
            faild_index: StringHashSet::new(),
            success: Vec::new(),
            success_index: StringHashMap::new(),
        };
        assert(db@.pending =~= Seq::empty());
        assert(db@.failed =~= Seq::empty());
        assert(db@.success =~= Seq::empty());
        assert(keys(db@.success) =~= Seq::empty());
        db
    }

    /// Adds `ips` to the pending addresses, skipping each that is pending
    /// already, and returns those that were added, in order.
    pub fn import_ips(&mut self, ips: Vec<String>) -> (added: Vec<String>)
        requires
            old(self).wf(),
        ensures
            final(self).wf(),
            final(self)@ == old(self)@.import(ips.deep_view()),
            final(self)@.pending == old(self)@.pending + added.deep_view(),
    {
        let mut added: Vec<String> = Vec::new();
        let mut i: usize = 0;
        assert(self@.pending + added.deep_view() =~= self@.pending);
        while i < ips.len()
            invariant
                i <= ips.len(),
                self.wf(),
                self@.failed == old(self)@.failed,
                self@.success == old(self)@.success,
                self@.pending == add_keys(old(self)@.pending, ips.deep_view().take(i as int)),
                self@.pending == old(self)@.pending + added.deep_view(),
            decreases ips.len() - i,
        {
            proof {
                let done = ips.deep_view().take(i as int);
                let next = ips.deep_view().take(i + 1);
                assert(next.drop_last() =~= done);
                assert(next.last() == ips[i as int]@);
            }
            if !self.src_index.contains(ips[i].as_str()) {
                let ghost before = self@.pending;
                let ghost added_before = added.deep_view();
                self.src_index.insert(ips[i].clone());
                self.src.push_back(ips[i].clone());
                added.push(ips[i].clone());
                proof {
                    assert(self@.pending =~= before.push(ips[i as int]@));
                    assert(added.deep_view() =~= added_before.push(ips[i as int]@));
                    assert forall|other: Seq<char>|
                        self.src_index@.contains(other) <==> self@.pending.contains(other) by {
                        lemma_push_contains(before, ips[i as int]@, other);
                    }
                }
            }
            i += 1;
        }
        assert(ips.deep_view().take(ips.len() as int) =~= ips.deep_view());
        added
    }

    /// Strikes from the pending addresses each that is already recorded as
    /// failed or successful, and returns those that were struck, in order.
    pub fn check_src(&mut self) -> (removed: Vec<String>)
        requires
            old(self).wf(),
        ensures
            final(self).wf(),
            final(self)@ == old(self)@.reconcile(),
            removed.deep_view() == old(self)@.stale(),
            final(self)@.pending_set().disjoint(final(self)@.classified()),
    {
        let mut kept: VecDeque<String> = VecDeque::new();
        let mut kept_index = StringHashSet::new();
        let mut removed: Vec<String> = Vec::new();
        let ghost marked = self@.classified();
        let mut i: usize = 0;
        assert(kept.deep_view() =~= Seq::empty());
        assert(removed.deep_view() =~= Seq::empty());
        while i < self.src.len()
            invariant
                i <= self.src.len(),
                *self == *old(self),
                self.wf(),
                marked == self@.classified(),
                kept.deep_view() == sift(self@.pending.take(i as int), marked, false),
                removed.deep_view() == sift(self@.pending.take(i as int), marked, true),
                members(kept_index@, kept.deep_view()),
            decreases self.src.len() - i,
        {
            proof {
                let done = self@.pending.take(i as int);
                let next = self@.pending.take(i + 1);
                assert(next.drop_last() =~= done);
                assert(next.last() == self.src[i as int]@);
            }
            let ip = self.src[i].clone();
            let ghost kept_before = kept.deep_view();
            let ghost removed_before = removed.deep_view();
            if self.faild_index.contains(ip.as_str()) || self.success_index.contains_key(
                ip.as_str(),
            ) {
                removed.push(ip);
                assert(removed.deep_view() =~= removed_before.push(self.src[i as int]@));
            } else {
                kept_index.insert(ip.clone());
                kept.push_back(ip);
                proof {
                    assert(kept.deep_view() =~= kept_before.push(self.src[i as int]@));
                    assert forall|other: Seq<char>|
                        kept_index@.contains(other) <==> kept.deep_view().contains(other) by {
                        lemma_push_contains(kept_before, self.src[i as int]@, other);
                    }
                }
            }
            i += 1;
        }
        proof {
            assert(self@.pending.take(self.src.len() as int) =~= self@.pending);
            lemma_sift(self@.pending, marked, false);
        }
        self.src = kept;
        self.src_index = kept_index;
        removed
    }

    /// Hands out the `n` oldest pending addresses, or all of them where
    /// there are fewer, and takes them out of the pending addresses.
    pub fn get_n_ip(&mut self, n: usize) -> (batch: Vec<String>)
        requires
            old(self).wf(),
        ensures
            final(self).wf(),
            batch.deep_view() == old(self)@.batch(n as nat),
            final(self)@ == old(self)@.dequeue(n as nat),
            batch.len() == old(self)@.batch_len(n as nat),
            final(self)@.pending.len() == old(self)@.pending.len() - batch.len(),
            old(self)@.pending == batch.deep_view() + final(self)@.pending,
            batch.deep_view().no_duplicates(),
            forall|ip: Seq<char>|
                batch.deep_view().contains(ip) ==> old(self)@.pending.contains(ip)
                    && !final(self)@.pending.contains(ip),
    {
        let k = if n <= self.src.len() {
            n
        } else {
            self.src.len()
        };
        let ghost before = self@.pending;
        let mut batch: Vec<String> = Vec::new();
        let mut i: usize = 0;
        proof {
            assert(batch.deep_view() =~= before.take(0));
            assert(self@.pending =~= before.skip(0));
        }
        while i < k
            invariant
                i <= k <= before.len(),
                before == old(self)@.pending,
                before.no_duplicates(),
                self@.failed == old(self)@.failed,
                self@.success == old(self)@.success,
                self.wf(),
                self@.pending == before.skip(i as int),
                batch.deep_view() == before.take(i as int),
            decreases k - i,
        {
            let ghost batch_before = batch.deep_view();
            let ghost index_before = self.src_index@;
            let ghost raw = self.src@;
            proof {
                assert(raw.len() == before.skip(i as int).len());
                assert(raw[0]@ == before.skip(i as int)[0]);
            }
            match self.src.pop_front() {
                Some(ip) => {
                    self.src_index.remove(ip.as_str());
                    batch.push(ip);
                    proof {
                        assert(ip@ == before[i as int]);
                        assert forall|j: int| 0 <= j < self.src@.len() implies (
                        #[trigger] self.src@[j])@ == before.skip(i + 1)[j] by {
                            assert(self.src@[j] == raw[j + 1]);
                            assert(raw[j + 1]@ == before.skip(i as int)[j + 1]);
                        }
                        assert(self@.pending =~= before.skip(i + 1));
                        assert(batch.deep_view() =~= batch_before.push(before[i as int]));
                        assert(batch.deep_view() =~= before.take(i + 1));
                        assert forall|other: Seq<char>|
                            self.src_index@.contains(other) <==> self@.pending.contains(other) by {
                            let held = before.skip(i as int);
                            let rest = before.skip(i + 1);
                            if rest.contains(other) {
                                let j = choose|j: int| 0 <= j < rest.len() && rest[j] == other;
                                assert(held[j + 1] == other);
                                assert(before[i + 1 + j] == other);
                            }
                            if index_before.contains(other) && other != before[i as int] {
                                let j = choose|j: int| 0 <= j < held.len() && held[j] == other;
                                assert(before[i + j] == other);
                                assert(rest[j - 1] == other);
                            }
                        }
                    }
                },
                None => {
                    assert(false);
                },
            }
            i += 1;
        }
        proof {
            assert(before =~= before.take(k as int) + before.skip(k as int));
            assert forall|ip: Seq<char>| batch.deep_view().contains(ip) implies before.contains(ip)
                && !self@.pending.contains(ip) by {
                let head = before.take(k as int);
                let rest = before.skip(k as int);
                let i = choose|i: int| 0 <= i < head.len() && head[i] == ip;
                assert(before[i] == ip);
                if rest.contains(ip) {
                    let j = choose|j: int| 0 <= j < rest.len() && rest[j] == ip;
                    assert(before[j + k] == ip);
                }
            }
        }
        batch
    }

    /// Hands out every pending address and leaves none pending.
    pub fn get_all_ip(&mut self) -> (batch: Vec<String>)
        requires
            old(self).wf(),
        ensures
            final(self).wf(),
            batch.deep_view() == old(self)@.pending,
            final(self)@ == old(self)@.drain(),
    {
        let n = self.src.len();
        let ghost before = self@.pending;
        let batch = self.get_n_ip(n);
        proof {
            assert(before.take(n as int) =~= before);
            assert(before.skip(n as int) =~= Seq::empty());
        }
        batch
    }

    /// Records `ips` as failed; one that is recorded as failed already stays
    /// as it is.
    pub fn add_faild_ip(&mut self, ips: &[String])
        requires
            old(self).wf(),
        ensures
            final(self).wf(),
            final(self)@ == old(self)@.put_failed(ips.deep_view()),
    {
        let mut i: usize = 0;
        while i < ips.len()
            invariant
                i <= ips.len(),
                self.wf(),
                self@.pending == old(self)@.pending,
                self@.success == old(self)@.success,
                self@.failed == add_keys(old(self)@.failed, ips.deep_view().take(i as int)),
            decreases ips.len() - i,
        {
            proof {
                let done = ips.deep_view().take(i as int);
                let next = ips.deep_view().take(i + 1);
                assert(next.drop_last() =~= done);
                assert(next.last() == ips[i as int]@);
            }
            let _ = add_ip(&mut self.faild, &mut self.faild_index, &ips[i]);
            i += 1;
        }
        assert(ips.deep_view().take(ips.len() as int) =~= ips.deep_view());
    }

    /// Records `rows` as successful, each with its flags `(http_ok,
    /// https_ok)`; a row replaces the one that was recorded for its address.
    pub fn add_success_ip(&mut self, rows: &[(String, bool, bool)])
        requires
            old(self).wf(),
        ensures
            final(self).wf(),
            final(self)@ == old(self)@.put_success(rows.deep_view()),
    {
        let mut i: usize = 0;
        while i < rows.len()
            invariant
                i <= rows.len(),
                self.wf(),
                self@.pending == old(self)@.pending,
                self@.failed == old(self)@.failed,
                self@.success == put_rows(old(self)@.success, rows.deep_view().take(i as int)),
            decreases rows.len() - i,
        {
            let ghost before = self@.success;
            let ghost index_before = self.success_index@;
            let ghost row = rows.deep_view()[i as int];
            proof {
                let done = rows.deep_view().take(i as int);
                let next = rows.deep_view().take(i + 1);
                assert(next.drop_last() =~= done);
                assert(next.last() == row);
                assert(row == (rows[i as int].0@, rows[i as int].1, rows[i as int].2));
            }
            let fresh = (rows[i].0.clone(), rows[i].1, rows[i].2);
            let place = match self.success_index.get(rows[i].0.as_str()) {
                Some(at) => Some(*at),
                None => None,
            };
            match place {
                Some(at) => {
                    proof {
                        assert(keys(before).contains(row.0));
                        let found = keys(before).index_of(row.0);
                        assert(index_before[keys(before)[found]] == found);
                        assert(found == at);
                    }
                    self.success.set(at, fresh);
                    proof {
                        assert(self@.success =~= before.update(at as int, row));
                        assert(keys(self@.success) =~= keys(before));
                    }
                },
                None => {
                    self.success_index.insert(rows[i].0.clone(), self.success.len());
                    self.success.push(fresh);
                    proof {
                        assert(self@.success =~= before.push(row));
                        assert(keys(self@.success) =~= keys(before).push(row.0));
                        assert forall|other: Seq<char>|
                            self.success_index@.contains_key(other) <==> keys(
                                self@.success,
                            ).contains(other) by {
                            lemma_push_contains(keys(before), row.0, other);
                        }
                    }
                },
            }
            i += 1;
        }
        assert(rows.deep_view().take(rows.len() as int) =~= rows.deep_view());
    }

    /// Records probe outcomes `(address, http_ok, https_ok)`: those with
    /// neither flag as failed, the others as successful. Returns the rows
    /// that went to each table, the failed first.
    pub fn update_ips(&mut self, ips: &[(String, bool, bool)]) -> (written: (
        Vec<String>,
        Vec<(String, bool, bool)>,
    ))
        requires
            old(self).wf(),
        ensures
            final(self).wf(),
            final(self)@ == old(self)@.record(ips.deep_view()),
            written.0.deep_view() == misses(ips.deep_view()),
            written.1.deep_view() == hits(ips.deep_view()),
    {
        let mut faild: Vec<String> = Vec::new();
        let mut success: Vec<(String, bool, bool)> = Vec::new();
        let mut i: usize = 0;
        assert(faild.deep_view() =~= Seq::empty());
        assert(success.deep_view() =~= Seq::empty());
        while i < ips.len()
            invariant
                i <= ips.len(),
                faild.deep_view() == misses(ips.deep_view().take(i as int)),
                success.deep_view() == hits(ips.deep_view().take(i as int)),
            decreases ips.len() - i,
        {
            let ghost row = ips.deep_view()[i as int];
            let ghost faild_before = faild.deep_view();
            let ghost success_before = success.deep_view();
            proof {
                let done = ips.deep_view().take(i as int);
                let next = ips.deep_view().take(i + 1);
                assert(next.drop_last() =~= done);
                assert(next.last() == row);
                assert(row == (ips[i as int].0@, ips[i as int].1, ips[i as int].2));
            }
            if ips[i].1 || ips[i].2 {
                success.push((ips[i].0.clone(), ips[i].1, ips[i].2));
                assert(success.deep_view() =~= success_before.push(row));
            } else {
                faild.push(ips[i].0.clone());
                assert(faild.deep_view() =~= faild_before.push(row.0));
            }
            i += 1;
        }
        assert(ips.deep_view().take(ips.len() as int) =~= ips.deep_view());
        self.add_faild_ip(faild.as_slice());
        self.add_success_ip(success.as_slice());
        (faild, success)
    }

    /// Records the outcome of one probe, as `update_ips` does for many.
    pub fn update_ip(&mut self, ip: &str, http_ok: bool, https_ok: bool)
        requires
            old(self).wf(),
        ensures
            final(self).wf(),
            final(self)@ == old(self)@.record(seq![(ip@, http_ok, https_ok)]),
    {
        let mut one: Vec<(String, bool, bool)> = Vec::new();
        one.push((ip.to_owned(), http_ok, https_ok));
        assert(one.deep_view() =~= seq![(ip@, http_ok, https_ok)]);
        let _ = self.update_ips(one.as_slice());
    }

    /// The successful addresses that work over http, and those that work
    /// over https; an address with both flags is in both lists.
    pub fn export_success(&self) -> (lists: (Vec<String>, Vec<String>))
        ensures
            lists.0.deep_view() == self@.http_capable(),
            lists.1.deep_view() == self@.https_capable(),
    {
        let mut http_ips: Vec<String> = Vec::new();
        let mut https_ips: Vec<String> = Vec::new();
        let mut i: usize = 0;
        assert(http_ips.deep_view() =~= Seq::empty());
        assert(https_ips.deep_view() =~= Seq::empty());
        while i < self.success.len()
            invariant
                i <= self.success.len(),
                http_ips.deep_view() == http_keys(self@.success.take(i as int)),
                https_ips.deep_view() == https_keys(self@.success.take(i as int)),
            decreases self.success.len() - i,
        {
            let ghost row = self@.success[i as int];
            let ghost http_before = http_ips.deep_view();
            let ghost https_before = https_ips.deep_view();
            proof {
                let done = self@.success.take(i as int);
                let next = self@.success.take(i + 1);
                assert(next.drop_last() =~= done);
                assert(next.last() == row);
                assert(row == (
                    self.success[i as int].0@,
                    self.success[i as int].1,
                    self.success[i as int].2,
                ));
            }
            if self.success[i].1 {
                http_ips.push(self.success[i].0.clone());
                assert(http_ips.deep_view() =~= http_before.push(row.0));
            }
            if self.success[i].2 {
                https_ips.push(self.success[i].0.clone());
                assert(https_ips.deep_view() =~= https_before.push(row.0));
            }
            i += 1;
        }
        assert(self@.success.take(self.success.len() as int) =~= self@.success);
        (http_ips, https_ips)
    }

    /// The pending addresses, oldest first.
    pub fn pending_ips(&self) -> (ips: Vec<String>)
        ensures
            ips.deep_view() == self@.pending,
    {
        let mut ips: Vec<String> = Vec::new();
        let mut i: usize = 0;
        assert(ips.deep_view() =~= self@.pending.take(0));
        while i < self.src.len()
            invariant
                i <= self.src.len(),
                ips.deep_view() == self@.pending.take(i as int),
            decreases self.src.len() - i,
        {
            let ghost before = ips.deep_view();
            ips.push(self.src[i].clone());
            assert(ips.deep_view() =~= before.push(self.src[i as int]@));
            assert(ips.deep_view() =~= self@.pending.take(i + 1));
            i += 1;
        }
        assert(self@.pending.take(self.src.len() as int) =~= self@.pending);
        ips
    }

    /// The addresses recorded as failed, in the order in which they were
    /// first recorded.
    pub fn failed_ips(&self) -> (ips: Vec<String>)
        ensures
            ips.deep_view() == self@.failed,
    {
        let mut ips: Vec<String> = Vec::new();
        let mut i: usize = 0;
        assert(ips.deep_view() =~= self@.failed.take(0));
        while i < self.faild.len()
            invariant
                i <= self.faild.len(),
                ips.deep_view() == self@.failed.take(i as int),
            decreases self.faild.len() - i,
        {
            let ghost before = ips.deep_view();
            ips.push(self.faild[i].clone());
            assert(ips.deep_view() =~= before.push(self.faild[i as int]@));
            assert(ips.deep_view() =~= self@.failed.take(i + 1));
            i += 1;
        }
        assert(self@.failed.take(self.faild.len() as int) =~= self@.failed);
        ips
    }

    /// The rows of the successful addresses, `(address, http_ok,
    /// https_ok)`, in the order in which the addresses were first recorded.
    pub fn success_rows(&self) -> (rows: Vec<(String, bool, bool)>)
        ensures
            rows.deep_view() == self@.success,
    {
        let mut rows: Vec<(String, bool, bool)> = Vec::new();
        let mut i: usize = 0;
        assert(rows.deep_view() =~= self@.success.take(0));
        while i < self.success.len()
            invariant
                i <= self.success.len(),
                rows.deep_view() == self@.success.take(i as int),
            decreases self.success.len() - i,
        {
            let ghost before = rows.deep_view();
            let ghost row = self@.success[i as int];
            assert(row == (
                self.success[i as int].0@,
                self.success[i as int].1,
                self.success[i as int].2,
            ));
            rows.push((self.success[i].0.clone(), self.success[i].1, self.success[i].2));
            assert(rows.deep_view() =~= before.push(row));
            assert(rows.deep_view() =~= self@.success.take(i + 1));
            i += 1;
        }
        assert(self@.success.take(self.success.len() as int) =~= self@.success);
        rows
    }

    /// How many addresses are pending.
    pub fn count_src(&self) -> (n: usize)
        ensures
            n == self@.pending.len(),
    {
        self.src.len()
    }
}

} // verus!
