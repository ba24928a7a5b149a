//! The mathematical model of the candidate store: three tables of
//! addresses and the operations on them, as functions on sequences.
//!
//! An address is the text it was imported as. A row of the success table is
//! an address with two flags, `(address, http_ok, https_ok)`.

use vstd::prelude::*;

verus! {

/// The addresses of a sequence of rows, in order.
pub open spec fn keys(rows: Seq<(Seq<char>, bool, bool)>) -> Seq<Seq<char>> {
    Seq::new(rows.len(), |i: int| rows[i].0)
}

/// `table` with `ip` appended, unless it is already there.
pub open spec fn add_key(table: Seq<Seq<char>>, ip: Seq<char>) -> Seq<Seq<char>> {
    if table.contains(ip) {
        table
    } else {
        table.push(ip)
    }
}

/// `table` after each of `ips` was added in turn.
pub open spec fn add_keys(table: Seq<Seq<char>>, ips: Seq<Seq<char>>) -> Seq<Seq<char>>
    decreases ips.len(),
{
    if ips.len() == 0 {
        table
    } else {
        add_key(add_keys(table, ips.drop_last()), ips.last())
    }
}

/// `rows` with `row` written: in place of the row of the same address where
/// there is one, at the end otherwise.
pub open spec fn put_row(rows: Seq<(Seq<char>, bool, bool)>, row: (Seq<char>, bool, bool)) -> Seq<
    (Seq<char>, bool, bool),
> {
    if keys(rows).contains(row.0) {
        rows.update(keys(rows).index_of(row.0), row)
    } else {
        rows.push(row)
    }
}

/// `rows` after each of `new_rows` was written in turn.
pub open spec fn put_rows(
    rows: Seq<(Seq<char>, bool, bool)>,
    new_rows: Seq<(Seq<char>, bool, bool)>,
) -> Seq<(Seq<char>, bool, bool)>
    decreases new_rows.len(),
{
    if new_rows.len() == 0 {
        rows
    } else {
        put_row(put_rows(rows, new_rows.drop_last()), new_rows.last())
    }
}

/// The flags that stand for each address in `rows`: those of its last row.
pub open spec fn flags_of(rows: Seq<(Seq<char>, bool, bool)>) -> Map<Seq<char>, (bool, bool)>
    decreases rows.len(),
{
    if rows.len() == 0 {
        Map::empty()
    } else {
        flags_of(rows.drop_last()).insert(rows.last().0, (rows.last().1, rows.last().2))
    }
}

/// Whether an outcome reports a working port.
pub open spec fn is_hit(outcome: (Seq<char>, bool, bool)) -> bool {
    outcome.1 || outcome.2
}

/// The outcomes with a working port, in order.
pub open spec fn hits(outcomes: Seq<(Seq<char>, bool, bool)>) -> Seq<(Seq<char>, bool, bool)>
    decreases outcomes.len(),
{
    if outcomes.len() == 0 {
        Seq::empty()
    } else if is_hit(outcomes.last()) {
        hits(outcomes.drop_last()).push(outcomes.last())
    } else {
        hits(outcomes.drop_last())
    }
}

/// The addresses of the outcomes with no working port, in order.
pub open spec fn misses(outcomes: Seq<(Seq<char>, bool, bool)>) -> Seq<Seq<char>>
    decreases outcomes.len(),
{
    if outcomes.len() == 0 {
        Seq::empty()
    } else if is_hit(outcomes.last()) {
        misses(outcomes.drop_last())
    } else {
        misses(outcomes.drop_last()).push(outcomes.last().0)
    }
}

/// The addresses of the rows whose http flag is set, in order.
pub open spec fn http_keys(rows: Seq<(Seq<char>, bool, bool)>) -> Seq<Seq<char>>
    decreases rows.len(),
{
    if rows.len() == 0 {
        Seq::empty()
    } else if rows.last().1 {
        http_keys(rows.drop_last()).push(rows.last().0)
    } else {
        http_keys(rows.drop_last())
    }
}

/// The addresses of the rows whose https flag is set, in order.
pub open spec fn https_keys(rows: Seq<(Seq<char>, bool, bool)>) -> Seq<Seq<char>>
    decreases rows.len(),
{
    if rows.len() == 0 {
        Seq::empty()
    } else if rows.last().2 {
        https_keys(rows.drop_last()).push(rows.last().0)
    } else {
        https_keys(rows.drop_last())
    }
}

/// The members of `table`, in order, whose membership in `marked` is `want`.
pub open spec fn sift(table: Seq<Seq<char>>, marked: Set<Seq<char>>, want: bool) -> Seq<Seq<char>>
    decreases table.len(),
{
    if table.len() == 0 {
        Seq::empty()
    } else if marked.contains(table.last()) == want {
        sift(table.drop_last(), marked, want).push(table.last())
    } else {
        sift(table.drop_last(), marked, want)
    }
}

/// What `sift` keeps: the members of `table` whose membership in `marked` is
/// `want`, none of them twice where `table` holds none twice.
pub proof fn lemma_sift(table: Seq<Seq<char>>, marked: Set<Seq<char>>, want: bool)
    ensures
        forall|ip: Seq<char>|
            sift(table, marked, want).contains(ip) <==> table.contains(ip) && marked.contains(ip)
                == want,
        table.no_duplicates() ==> sift(table, marked, want).no_duplicates(),
        sift(table, marked, want).len() <= table.len(),
    decreases table.len(),
{
    if table.len() > 0 {
        let rest = table.drop_last();
        let last = table.last();
        lemma_sift(rest, marked, want);
        assert forall|ip: Seq<char>|
            sift(table, marked, want).contains(ip) <==> table.contains(ip) && marked.contains(ip)
                == want by {
            assert(table =~= rest.push(last));
            if table.contains(ip) {
                let i = choose|i: int| 0 <= i < table.len() && table[i] == ip;
                if i < rest.len() {
                    assert(rest[i] == ip);
                }
            }
            if rest.contains(ip) {
                let i = choose|i: int| 0 <= i < rest.len() && rest[i] == ip;
                assert(table[i] == ip);
            }
            let kept = sift(rest, marked, want);
            if marked.contains(last) == want {
                assert(kept.push(last).last() == last);
                if kept.push(last).contains(ip) {
                    let i = choose|i: int| 0 <= i < kept.len() + 1 && kept.push(last)[i] == ip;
                    if i < kept.len() {
                        assert(kept[i] == ip);
                    }
                }
                if kept.contains(ip) {
                    let i = choose|i: int| 0 <= i < kept.len() && kept[i] == ip;
                    assert(kept.push(last)[i] == ip);
                }
                assert(kept.push(last)[kept.len() as int] == last);
            }
            assert(table[table.len() - 1] == last);
        }
        if table.no_duplicates() {
            assert(rest.no_duplicates());
            if marked.contains(last) == want {
                let kept = sift(rest, marked, want);
                if rest.contains(last) {
                    let i = choose|i: int| 0 <= i < rest.len() && rest[i] == last;
                    assert(table[i] == table[table.len() - 1]);
                }
                assert(!kept.contains(last));
            }
        }
    }
}

/// What `add_keys` holds: `table` as it was, then the new ones among `ips`,
/// none of them twice where `table` held none twice.
pub proof fn lemma_add_keys(table: Seq<Seq<char>>, ips: Seq<Seq<char>>)
    ensures
        forall|ip: Seq<char>|
            add_keys(table, ips).contains(ip) <==> table.contains(ip) || ips.contains(ip),
        table.no_duplicates() ==> add_keys(table, ips).no_duplicates(),
        table.len() <= add_keys(table, ips).len() <= table.len() + ips.len(),
        add_keys(table, ips).take(table.len() as int) == table,
    decreases ips.len(),
{
    if ips.len() == 0 {
        assert(table.take(table.len() as int) =~= table);
    } else {
        let rest = ips.drop_last();
        let last = ips.last();
        let before = add_keys(table, rest);
        lemma_add_keys(table, rest);
        assert(ips =~= rest.push(last));
        assert(ips[ips.len() - 1] == last);
        assert forall|ip: Seq<char>|
            add_keys(table, ips).contains(ip) <==> table.contains(ip) || ips.contains(ip) by {
            if ips.contains(ip) {
                let i = choose|i: int| 0 <= i < ips.len() && ips[i] == ip;
                if i < rest.len() {
                    assert(rest[i] == ip);
                }
            }
            if rest.contains(ip) {
                let i = choose|i: int| 0 <= i < rest.len() && rest[i] == ip;
                assert(ips[i] == ip);
            }
            if !before.contains(last) {
                lemma_push_contains(before, last, ip);
            }
        }
        if !before.contains(last) {
            assert(before.push(last).take(table.len() as int) =~= before.take(table.len() as int));
        }
    }
}

/// Membership in a sequence that one element was pushed onto.
pub proof fn lemma_push_contains(table: Seq<Seq<char>>, last: Seq<char>, ip: Seq<char>)
    ensures
        table.push(last).contains(ip) <==> table.contains(ip) || ip == last,
{
    let pushed = table.push(last);
    if pushed.contains(ip) {
        let i = choose|i: int| 0 <= i < pushed.len() && pushed[i] == ip;
        if i < table.len() {
            assert(table[i] == ip);
        }
    }
    if table.contains(ip) {
        let i = choose|i: int| 0 <= i < table.len() && table[i] == ip;
        assert(pushed[i] == ip);
    }
    assert(pushed[table.len() as int] == last);
}

/// Adding addresses that are all there already changes nothing.
pub proof fn lemma_add_keys_known(table: Seq<Seq<char>>, ips: Seq<Seq<char>>)
    requires
        forall|i: int| 0 <= i < ips.len() ==> table.contains(#[trigger] ips[i]),
    ensures
        add_keys(table, ips) == table,
    decreases ips.len(),
{
    if ips.len() > 0 {
        let rest = ips.drop_last();
        assert forall|i: int| 0 <= i < rest.len() implies table.contains(#[trigger] rest[i]) by {
            assert(rest[i] == ips[i]);
        }
        lemma_add_keys_known(table, rest);
        assert(table.contains(ips[ips.len() - 1]));
    }
}

/// Adding distinct addresses of which none is there appends them as they are.
pub proof fn lemma_add_keys_fresh(table: Seq<Seq<char>>, ips: Seq<Seq<char>>)
    requires
        ips.no_duplicates(),
        forall|i: int| 0 <= i < ips.len() ==> !table.contains(#[trigger] ips[i]),
    ensures
        add_keys(table, ips) == table + ips,
    decreases ips.len(),
{
    if ips.len() == 0 {
        assert(table + ips =~= table);
    } else {
        let rest = ips.drop_last();
        let last = ips.last();
        assert forall|i: int| 0 <= i < rest.len() implies !table.contains(#[trigger] rest[i]) by {
            assert(rest[i] == ips[i]);
        }
        lemma_add_keys_fresh(table, rest);
        assert(!table.contains(ips[ips.len() - 1]));
        if (table + rest).contains(last) {
            let i = choose|i: int| 0 <= i < (table + rest).len() && (table + rest)[i] == last;
            if i < table.len() {
                assert(table[i] == last);
            } else {
                assert(ips[i - table.len()] == ips[ips.len() - 1]);
            }
        }
        assert((table + rest).push(last) =~= table + ips);
    }
}

/// Adding two runs of addresses, one after the other, is adding them joined.
pub proof fn lemma_add_keys_joined(table: Seq<Seq<char>>, first: Seq<Seq<char>>, second: Seq<Seq<char>>)
    ensures
        add_keys(table, first + second) == add_keys(add_keys(table, first), second),
    decreases second.len(),
{
    if second.len() == 0 {
        assert(first + second =~= first);
    } else {
        lemma_add_keys_joined(table, first, second.drop_last());
        assert((first + second).drop_last() =~= first + second.drop_last());
        assert((first + second).last() == second.last());
    }
}

/// What writing one row does to the rows: the row is there, the rows of
/// other addresses are as they were, and no address has two rows.
pub proof fn lemma_put_row(rows: Seq<(Seq<char>, bool, bool)>, row: (Seq<char>, bool, bool))
    requires
        keys(rows).no_duplicates(),
    ensures
        keys(put_row(rows, row)).no_duplicates(),
        put_row(rows, row).contains(row),
        forall|ip: Seq<char>|
            keys(put_row(rows, row)).contains(ip) <==> keys(rows).contains(ip) || ip == row.0,
        forall|other: (Seq<char>, bool, bool)|
            other.0 != row.0 ==> (put_row(rows, row).contains(other) <==> rows.contains(other)),
        forall|other: (Seq<char>, bool, bool)|
            put_row(rows, row).contains(other) && other.0 == row.0 ==> other == row,
{
    let after = put_row(rows, row);
    if keys(rows).contains(row.0) {
        let at = keys(rows).index_of(row.0);
        assert(keys(rows)[at] == row.0);
        assert(keys(after) =~= keys(rows));
        assert(after[at] == row);
        assert forall|other: (Seq<char>, bool, bool)|
            other.0 != row.0 implies (after.contains(other) <==> rows.contains(other)) by {
            if after.contains(other) {
                let i = choose|i: int| 0 <= i < after.len() && after[i] == other;
                assert(rows[i] == other);
            }
            if rows.contains(other) {
                let i = choose|i: int| 0 <= i < rows.len() && rows[i] == other;
                assert(keys(rows)[i] == other.0);
                assert(after[i] == other);
            }
        }
        assert forall|other: (Seq<char>, bool, bool)|
            after.contains(other) && other.0 == row.0 implies other == row by {
            let i = choose|i: int| 0 <= i < after.len() && after[i] == other;
            assert(keys(after)[i] == keys(after)[at]);
        }
    } else {
        assert(keys(after) =~= keys(rows).push(row.0));
        assert(after[rows.len() as int] == row);
        assert forall|ip: Seq<char>|
            keys(after).contains(ip) <==> keys(rows).contains(ip) || ip == row.0 by {
            lemma_push_contains(keys(rows), row.0, ip);
        }
        assert forall|other: (Seq<char>, bool, bool)|
            other.0 != row.0 implies (after.contains(other) <==> rows.contains(other)) by {
            if after.contains(other) {
                let i = choose|i: int| 0 <= i < after.len() && after[i] == other;
                assert(rows[i] == other);
            }
            if rows.contains(other) {
                let i = choose|i: int| 0 <= i < rows.len() && rows[i] == other;
                assert(after[i] == other);
            }
        }
        assert forall|other: (Seq<char>, bool, bool)|
            after.contains(other) && other.0 == row.0 implies other == row by {
            let i = choose|i: int| 0 <= i < after.len() && after[i] == other;
            if i < rows.len() {
                assert(keys(rows)[i] == row.0);
            }
        }
    }
}

/// Which addresses have a row after rows were written: those that had one
/// and those of the rows written; none has two.
pub proof fn lemma_put_rows(rows: Seq<(Seq<char>, bool, bool)>, new_rows: Seq<(Seq<char>, bool, bool)>)
    requires
        keys(rows).no_duplicates(),
    ensures
        keys(put_rows(rows, new_rows)).no_duplicates(),
        forall|ip: Seq<char>|
            keys(put_rows(rows, new_rows)).contains(ip) <==> keys(rows).contains(ip) || keys(
                new_rows,
            ).contains(ip),
    decreases new_rows.len(),
{
    if new_rows.len() > 0 {
        let rest = new_rows.drop_last();
        let last = new_rows.last();
        lemma_put_rows(rows, rest);
        lemma_put_row(put_rows(rows, rest), last);
        assert(keys(new_rows) =~= keys(rest).push(last.0));
        assert forall|ip: Seq<char>|
            keys(put_rows(rows, new_rows)).contains(ip) <==> keys(rows).contains(ip) || keys(
                new_rows,
            ).contains(ip) by {
            lemma_push_contains(keys(rest), last.0, ip);
        }
    }
}

/// The addresses among the hits and among the misses of some outcomes.
pub proof fn lemma_hits_misses(outcomes: Seq<(Seq<char>, bool, bool)>)
    ensures
        forall|i: int|
            0 <= i < outcomes.len() && is_hit(#[trigger] outcomes[i]) ==> keys(
                hits(outcomes),
            ).contains(outcomes[i].0) && hits(outcomes).contains(outcomes[i]),
        forall|i: int|
            0 <= i < outcomes.len() && !is_hit(#[trigger] outcomes[i]) ==> misses(
                outcomes,
            ).contains(outcomes[i].0),
        forall|ip: Seq<char>| #[trigger]
            keys(hits(outcomes)).contains(ip) ==> exists|i: int|
                0 <= i < outcomes.len() && is_hit(#[trigger] outcomes[i]) && outcomes[i].0 == ip,
        forall|ip: Seq<char>| #[trigger]
            misses(outcomes).contains(ip) ==> exists|i: int|
                0 <= i < outcomes.len() && !is_hit(#[trigger] outcomes[i]) && outcomes[i].0 == ip,
        hits(outcomes).len() + misses(outcomes).len() == outcomes.len(),
    decreases outcomes.len(),
{
    if outcomes.len() > 0 {
        let rest = outcomes.drop_last();
        let last = outcomes.last();
        lemma_hits_misses(rest);
        assert(outcomes[outcomes.len() - 1] == last);
        assert forall|i: int| 0 <= i < rest.len() implies rest[i] == outcomes[i] by {}
        if is_hit(last) {
            assert(keys(hits(outcomes)) =~= keys(hits(rest)).push(last.0));
            assert(hits(outcomes)[hits(rest).len() as int] == last);
            assert forall|i: int| 0 <= i < outcomes.len() && is_hit(#[trigger] outcomes[i]) implies keys(
                hits(outcomes),
            ).contains(outcomes[i].0) && hits(outcomes).contains(outcomes[i]) by {
                lemma_push_contains(keys(hits(rest)), last.0, outcomes[i].0);
                if i < rest.len() {
                    assert(is_hit(rest[i]));
                    let j = choose|j: int| 0 <= j < hits(rest).len() && hits(rest)[j] == rest[i];
                    assert(hits(outcomes)[j] == outcomes[i]);
                }
            }
            assert forall|ip: Seq<char>| #[trigger] keys(hits(outcomes)).contains(ip) implies exists|i: int|
                0 <= i < outcomes.len() && is_hit(#[trigger] outcomes[i]) && outcomes[i].0 == ip by {
                lemma_push_contains(keys(hits(rest)), last.0, ip);
                if keys(hits(rest)).contains(ip) {
                    let i = choose|i: int| 0 <= i < rest.len() && is_hit(#[trigger] rest[i]) && rest[i].0 == ip;
                    assert(is_hit(outcomes[i]) && outcomes[i].0 == ip);
                } else {
                    assert(is_hit(outcomes[outcomes.len() - 1]));
                }
            }
            assert forall|i: int| 0 <= i < outcomes.len() && !is_hit(#[trigger] outcomes[i]) implies misses(
                outcomes,
            ).contains(outcomes[i].0) by {
                assert(!is_hit(rest[i]));
            }
            assert forall|ip: Seq<char>| #[trigger] misses(outcomes).contains(ip) implies exists|i: int|
                0 <= i < outcomes.len() && !is_hit(#[trigger] outcomes[i]) && outcomes[i].0 == ip by {
                let i = choose|i: int| 0 <= i < rest.len() && !is_hit(#[trigger] rest[i]) && rest[i].0 == ip;
                assert(!is_hit(outcomes[i]) && outcomes[i].0 == ip);
            }
        } else {
            assert forall|i: int| 0 <= i < outcomes.len() && is_hit(#[trigger] outcomes[i]) implies keys(
                hits(outcomes),
            ).contains(outcomes[i].0) && hits(outcomes).contains(outcomes[i]) by {
                assert(is_hit(rest[i]));
            }
            assert forall|ip: Seq<char>| #[trigger] keys(hits(outcomes)).contains(ip) implies exists|i: int|
                0 <= i < outcomes.len() && is_hit(#[trigger] outcomes[i]) && outcomes[i].0 == ip by {
                let i = choose|i: int| 0 <= i < rest.len() && is_hit(#[trigger] rest[i]) && rest[i].0 == ip;
                assert(is_hit(outcomes[i]) && outcomes[i].0 == ip);
            }
            assert forall|i: int| 0 <= i < outcomes.len() && !is_hit(#[trigger] outcomes[i]) implies misses(
                outcomes,
            ).contains(outcomes[i].0) by {
                lemma_push_contains(misses(rest), last.0, outcomes[i].0);
                if i < rest.len() {
                    assert(!is_hit(rest[i]));
                }
            }
            assert forall|ip: Seq<char>| #[trigger] misses(outcomes).contains(ip) implies exists|i: int|
                0 <= i < outcomes.len() && !is_hit(#[trigger] outcomes[i]) && outcomes[i].0 == ip by {
                lemma_push_contains(misses(rest), last.0, ip);
                if misses(rest).contains(ip) {
                    let i = choose|i: int| 0 <= i < rest.len() && !is_hit(#[trigger] rest[i]) && rest[i].0 == ip;
                    assert(!is_hit(outcomes[i]) && outcomes[i].0 == ip);
                } else {
                    assert(!is_hit(outcomes[outcomes.len() - 1]));
                }
            }
        }
    }
}

/// Where the membership of every member of `table` in `marked` is `want`,
/// `sift` keeps them all.
pub proof fn lemma_sift_all(table: Seq<Seq<char>>, marked: Set<Seq<char>>, want: bool)
    requires
        forall|i: int| 0 <= i < table.len() ==> marked.contains(#[trigger] table[i]) == want,
    ensures
        sift(table, marked, want) == table,
        sift(table, marked, !want) == Seq::<Seq<char>>::empty(),
    decreases table.len(),
{
    if table.len() > 0 {
        let rest = table.drop_last();
        assert forall|i: int| 0 <= i < rest.len() implies marked.contains(#[trigger] rest[i])
            == want by {
            assert(rest[i] == table[i]);
        }
        lemma_sift_all(rest, marked, want);
        assert(marked.contains(table[table.len() - 1]) == want);
        assert(rest.push(table.last()) =~= table);
    }
}

/// `flags_of` has an entry for each address of the rows, and where no
/// address has two rows, the entry holds the flags of its row.
pub proof fn lemma_flags_of(rows: Seq<(Seq<char>, bool, bool)>)
    ensures
        forall|ip: Seq<char>| flags_of(rows).contains_key(ip) <==> keys(rows).contains(ip),
        keys(rows).no_duplicates() ==> forall|i: int|
            0 <= i < rows.len() ==> flags_of(rows)[(#[trigger] rows[i]).0] == (rows[i].1, rows[i].2),
    decreases rows.len(),
{
    if rows.len() > 0 {
        let rest = rows.drop_last();
        let last = rows.last();
        lemma_flags_of(rest);
        assert(keys(rows) =~= keys(rest).push(last.0));
        assert forall|ip: Seq<char>| flags_of(rows).contains_key(ip) <==> keys(rows).contains(
            ip,
        ) by {
            lemma_push_contains(keys(rest), last.0, ip);
        }
        if keys(rows).no_duplicates() {
            assert(keys(rest).no_duplicates()) by {
                assert forall|i: int, j: int|
                    0 <= i < rest.len() && 0 <= j < rest.len() && i != j implies keys(rest)[i]
                    != keys(rest)[j] by {
                    assert(keys(rows)[i] == keys(rest)[i] && keys(rows)[j] == keys(rest)[j]);
                }
            }
            assert forall|i: int| 0 <= i < rows.len() implies flags_of(rows)[(#[trigger] rows[i]).0]
                == (rows[i].1, rows[i].2) by {
                if i < rest.len() {
                    assert(rest[i] == rows[i]);
                    assert(keys(rows)[i] != keys(rows)[rows.len() - 1]);
                }
            }
        }
    }
}

/// Writing a row sets the flags of its address and leaves the others.
pub proof fn lemma_flags_put_row(rows: Seq<(Seq<char>, bool, bool)>, row: (Seq<char>, bool, bool))
    requires
        keys(rows).no_duplicates(),
    ensures
        flags_of(put_row(rows, row)) == flags_of(rows).insert(row.0, (row.1, row.2)),
{
    let after = put_row(rows, row);
    lemma_put_row(rows, row);
    lemma_flags_of(rows);
    lemma_flags_of(after);
    assert forall|ip: Seq<char>| flags_of(after).contains_key(ip) implies flags_of(after)[ip]
        == flags_of(rows).insert(row.0, (row.1, row.2))[ip] by {
        let names = keys(after);
        assert(names.contains(ip));
        let i = choose|i: int| 0 <= i < names.len() && names[i] == ip;
        assert(after[i].0 == ip);
        assert(after.contains(after[i]));
        if ip != row.0 {
            assert(rows.contains(after[i]));
            let j = choose|j: int| 0 <= j < rows.len() && rows[j] == after[i];
        }
    }
    let wanted = flags_of(rows).insert(row.0, (row.1, row.2));
    assert forall|ip: Seq<char>| flags_of(after).dom().contains(ip) <==> wanted.dom().contains(
        ip,
    ) by {
        assert(flags_of(after).contains_key(ip) <==> keys(after).contains(ip));
        assert(flags_of(rows).contains_key(ip) <==> keys(rows).contains(ip));
    }
    assert(flags_of(after).dom() =~= wanted.dom());
    assert(flags_of(after) =~= wanted);
}

/// Writing rows leaves for each address the flags of the last row written
/// for it, and for the others those that stood.
pub proof fn lemma_flags_put_rows(
    rows: Seq<(Seq<char>, bool, bool)>,
    new_rows: Seq<(Seq<char>, bool, bool)>,
)
    requires
        keys(rows).no_duplicates(),
    ensures
        flags_of(put_rows(rows, new_rows)) == flags_of(rows + new_rows),
    decreases new_rows.len(),
{
    if new_rows.len() == 0 {
        assert(rows + new_rows =~= rows);
    } else {
        let rest = new_rows.drop_last();
        lemma_flags_put_rows(rows, rest);
        lemma_put_rows(rows, rest);
        lemma_flags_put_row(put_rows(rows, rest), new_rows.last());
        assert((rows + new_rows).drop_last() =~= rows + rest);
        assert((rows + new_rows).last() == new_rows.last());
    }
}

/// Rows of addresses that are apart may change places without a change of
/// the flags that stand.
pub proof fn lemma_flags_swap(
    first: Seq<(Seq<char>, bool, bool)>,
    left: Seq<(Seq<char>, bool, bool)>,
    right: Seq<(Seq<char>, bool, bool)>,
)
    requires
        forall|i: int, j: int|
            0 <= i < left.len() && 0 <= j < right.len() ==> (#[trigger] left[i]).0
                != (#[trigger] right[j]).0,
    ensures
        flags_of(first + left + right) == flags_of(first + right + left),
    decreases left.len() + right.len(),
{
    if right.len() == 0 {
        assert(first + left + right =~= first + right + left);
    } else if left.len() == 0 {
        assert(first + left + right =~= first + right + left);
    } else {
        let l = left.last();
        let r = right.last();
        let left_rest = left.drop_last();
        let right_rest = right.drop_last();
        assert(left[left.len() - 1] == l && right[right.len() - 1] == r);
        assert forall|i: int, j: int|
            0 <= i < left_rest.len() && 0 <= j < right.len() implies (#[trigger] left_rest[i]).0
            != (#[trigger] right[j]).0 by {
            assert(left_rest[i] == left[i]);
        }
        assert forall|i: int, j: int|
            0 <= i < left.len() && 0 <= j < right_rest.len() implies (#[trigger] left[i]).0
            != (#[trigger] right_rest[j]).0 by {
            assert(right_rest[j] == right[j]);
        }
        assert forall|i: int, j: int|
            0 <= i < left_rest.len() && 0 <= j < right_rest.len() implies (
        #[trigger] left_rest[i]).0 != (#[trigger] right_rest[j]).0 by {
            assert(left_rest[i] == left[i]);
            assert(right_rest[j] == right[j]);
        }
        lemma_flags_swap(first, left, right_rest);
        lemma_flags_swap(first, left_rest, right);
        lemma_flags_swap(first, left_rest, right_rest);
        let core = flags_of(first + left_rest + right_rest);
        assert((first + left + right).drop_last() =~= first + left + right_rest);
        assert((first + left + right).last() == r);
        assert((first + right_rest + left).drop_last() =~= first + right_rest + left_rest);
        assert((first + right_rest + left).last() == l);
        assert((first + right + left).drop_last() =~= first + right + left_rest);
        assert((first + right + left).last() == l);
        assert((first + left_rest + right).drop_last() =~= first + left_rest + right_rest);
        assert((first + left_rest + right).last() == r);
        assert(flags_of(first + left + right) == flags_of(first + right_rest + left).insert(
            r.0,
            (r.1, r.2),
        ));
        assert(flags_of(first + right_rest + left) == flags_of(
            first + right_rest + left_rest,
        ).insert(l.0, (l.1, l.2)));
        assert(flags_of(first + right + left) == flags_of(first + left_rest + right).insert(
            l.0,
            (l.1, l.2),
        ));
        assert(flags_of(first + left_rest + right) == core.insert(r.0, (r.1, r.2)));
        assert(flags_of(first + right_rest + left_rest) == core);
        assert(l.0 != r.0);
        assert(core.insert(l.0, (l.1, l.2)).insert(r.0, (r.1, r.2)) =~= core.insert(
            r.0,
            (r.1, r.2),
        ).insert(l.0, (l.1, l.2)));
    }
}

/// Rows that stand for the same flags still do once more rows follow.
pub proof fn lemma_flags_append(
    left: Seq<(Seq<char>, bool, bool)>,
    right: Seq<(Seq<char>, bool, bool)>,
    tail: Seq<(Seq<char>, bool, bool)>,
)
    requires
        flags_of(left) == flags_of(right),
    ensures
        flags_of(left + tail) == flags_of(right + tail),
    decreases tail.len(),
{
    if tail.len() == 0 {
        assert(left + tail =~= left);
        assert(right + tail =~= right);
    } else {
        lemma_flags_append(left, right, tail.drop_last());
        assert((left + tail).drop_last() =~= left + tail.drop_last());
        assert((right + tail).drop_last() =~= right + tail.drop_last());
        assert((left + tail).last() == tail.last());
        assert((right + tail).last() == tail.last());
    }
}

/// The three tables of the store.
pub struct Tables {
    /// Addresses not yet classified, oldest first.
    pub pending: Seq<Seq<char>>,
    /// Addresses on which no port served the expected content.
    pub failed: Seq<Seq<char>>,
    /// Addresses with a working port, each with its flags.
    pub success: Seq<(Seq<char>, bool, bool)>,
}

impl Tables {
    /// The store with nothing in it.
    pub open spec fn empty() -> Tables {
        Tables { pending: Seq::empty(), failed: Seq::empty(), success: Seq::empty() }
    }

    /// No table holds an address twice.
    pub open spec fn wf(self) -> bool {
        &&& self.pending.no_duplicates()
        &&& self.failed.no_duplicates()
        &&& keys(self.success).no_duplicates()
    }

    /// The addresses that are pending.
    pub open spec fn pending_set(self) -> Set<Seq<char>> {
        self.pending.to_set()
    }

    /// The addresses that are recorded as failed.
    pub open spec fn failed_set(self) -> Set<Seq<char>> {
        self.failed.to_set()
    }

    /// The addresses that are recorded as successful.
    pub open spec fn success_set(self) -> Set<Seq<char>> {
        keys(self.success).to_set()
    }

    /// The addresses that have been classified, one way or the other.
    pub open spec fn classified(self) -> Set<Seq<char>> {
        self.failed_set().union(self.success_set())
    }

    /// No address is in two of the three tables.
    pub open spec fn partitioned(self) -> bool {
        &&& self.pending_set().disjoint(self.failed_set())
        &&& self.pending_set().disjoint(self.success_set())
        &&& self.failed_set().disjoint(self.success_set())
    }

    /// The tables after `ips` were imported: each joins the pending
    /// addresses unless it is already pending.
    pub open spec fn import(self, ips: Seq<Seq<char>>) -> Tables {
        Tables { pending: add_keys(self.pending, ips), ..self }
    }

    /// The pending addresses that are already classified, in order.
    pub open spec fn stale(self) -> Seq<Seq<char>> {
        sift(self.pending, self.classified(), true)
    }

    /// The tables after the classified addresses were struck from the
    /// pending ones.
    pub open spec fn reconcile(self) -> Tables {
        Tables { pending: sift(self.pending, self.classified(), false), ..self }
    }

    /// How many addresses a dequeue of up to `n` hands out.
    pub open spec fn batch_len(self, n: nat) -> nat {
        if n <= self.pending.len() {
            n
        } else {
            self.pending.len()
        }
    }

    /// The addresses that a dequeue of up to `n` hands out: the oldest.
    pub open spec fn batch(self, n: nat) -> Seq<Seq<char>> {
        self.pending.take(self.batch_len(n) as int)
    }

    /// The tables after a dequeue of up to `n`.
    pub open spec fn dequeue(self, n: nat) -> Tables {
        Tables { pending: self.pending.skip(self.batch_len(n) as int), ..self }
    }

    /// The tables after every pending address was handed out.
    pub open spec fn drain(self) -> Tables {
        Tables { pending: Seq::empty(), ..self }
    }

    /// Whether recording `outcomes` keeps the tables apart: no address of
    /// them is pending, none is in the table it does not go to, and none
    /// comes both with and without a working port.
    pub open spec fn admits(self, outcomes: Seq<(Seq<char>, bool, bool)>) -> bool {
        &&& forall|i: int|
            0 <= i < outcomes.len() ==> !self.pending.contains((#[trigger] outcomes[i]).0)
        &&& forall|i: int|
            0 <= i < outcomes.len() && is_hit(#[trigger] outcomes[i]) ==> !self.failed.contains(
                outcomes[i].0,
            )
        &&& forall|i: int|
            0 <= i < outcomes.len() && !is_hit(#[trigger] outcomes[i]) ==> !keys(
                self.success,
            ).contains(outcomes[i].0)
        &&& forall|i: int, j: int|
            0 <= i < outcomes.len() && 0 <= j < outcomes.len() && is_hit(#[trigger] outcomes[i])
                && !is_hit(#[trigger] outcomes[j]) ==> outcomes[i].0 != outcomes[j].0
    }

    /// The tables after `ips` were recorded as failed.
    pub open spec fn put_failed(self, ips: Seq<Seq<char>>) -> Tables {
        Tables { failed: add_keys(self.failed, ips), ..self }
    }

    /// The tables after `rows` were recorded as successful; a later row
    /// replaces an earlier one of the same address.
    pub open spec fn put_success(self, rows: Seq<(Seq<char>, bool, bool)>) -> Tables {
        Tables { success: put_rows(self.success, rows), ..self }
    }

    /// The tables after probe outcomes were recorded: those with no working
    /// port as failed, the others as successful with their flags.
    pub open spec fn record(self, outcomes: Seq<(Seq<char>, bool, bool)>) -> Tables {
        self.put_failed(misses(outcomes)).put_success(hits(outcomes))
    }

    /// The flags that are recorded for each successful address.
    pub open spec fn flags(self) -> Map<Seq<char>, (bool, bool)> {
        flags_of(self.success)
    }

    /// The successful addresses that work over http, in order.
    pub open spec fn http_capable(self) -> Seq<Seq<char>> {
        http_keys(self.success)
    }

    /// The successful addresses that work over https, in order.
    pub open spec fn https_capable(self) -> Seq<Seq<char>> {
        https_keys(self.success)
    }
}

} // verus!
