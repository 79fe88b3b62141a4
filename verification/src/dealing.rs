//! Dealing the records of a stream out to workers.
//!
//! However the records are dealt out, and whatever each worker's share, the
//! workers together count what the run in line counts, and the graph that
//! their partial graphs are merged into holds the debt of every record that
//! is a JSON object, as the run in line does. How the records are grouped
//! into nodes may depend on the deal; it does not where the records are
//! dealt out without a clash.

use crate::debtors::empty_debtors;
use crate::extract::{decoded, malformed, Debt, DebtRecView};
use crate::matching::summaries;
use crate::sides::{dealt, lemma_dealt_as_in_line, line, share, well_dealt};
use crate::laws::{
    all_debts, in_range, lemma_absorbed_debts, lemma_absorbed_in_range, lemma_merged_debts,
};
use crate::plain::{
    content, lemma_absorbed_plain, lemma_folded_plain, lemma_plus, no_content, one_phone, plain,
    plus, unit_of, Content,
};
use crate::worker::{handled_all, idle, joined_to, WorkerView};
use vstd::multiset::Multiset;
use vstd::prelude::*;

verus! {

/// The share of worker `w`: the records that `who` gives to it, in their
/// order.
pub open spec fn taken(records: Seq<Seq<u8>>, who: Seq<int>, w: int) -> Seq<Seq<u8>>
    decreases records.len(),
{
    if records.len() == 0 || who.len() == 0 {
        Seq::empty()
    } else {
        let rest = taken(records.drop_last(), who.drop_last(), w);
        if who.last() == w {
            rest.push(records.last())
        } else {
            rest
        }
    }
}

/// The total after the last `j` of `n` workers were joined, the last worker
/// first.
pub open spec fn gathered(records: Seq<Seq<u8>>, who: Seq<int>, n: int, j: int) -> WorkerView
    decreases j,
{
    if j <= 0 {
        idle()
    } else {
        joined_to(
            gathered(records, who, n, j - 1),
            handled_all(idle(), taken(records, who, n - j)),
        )
    }
}

/// How many of the records are malformed.
pub open spec fn error_count(records: Seq<Seq<u8>>) -> nat
    decreases records.len(),
{
    if records.len() == 0 {
        0
    } else if malformed(records.last()) {
        error_count(records.drop_last()) + 1
    } else {
        error_count(records.drop_last())
    }
}

/// How many of the records are JSON objects.
pub open spec fn valid_count(records: Seq<Seq<u8>>) -> nat
    decreases records.len(),
{
    if records.len() == 0 {
        0
    } else if decoded(records.last()) is Some {
        valid_count(records.drop_last()) + 1
    } else {
        valid_count(records.drop_last())
    }
}

/// The debts of those of the records that are JSON objects.
pub open spec fn read_debts(records: Seq<Seq<u8>>) -> Multiset<Debt>
    decreases records.len(),
{
    if records.len() == 0 {
        Multiset::empty()
    } else {
        match decoded(records.last()) {
            Some(dr) => read_debts(records.drop_last()).insert(dr.debt),
            None => read_debts(records.drop_last()),
        }
    }
}

/// What a worker has after a list of records: as many more processed as
/// are JSON objects, as many more errors as are malformed, and the debts of
/// the objects added to its graph.
pub proof fn lemma_handled(w: WorkerView, records: Seq<Seq<u8>>)
    requires
        in_range(w.result),
    ensures
        in_range(handled_all(w, records).result),
        handled_all(w, records).processed == w.processed + valid_count(records),
        handled_all(w, records).errors == w.errors + error_count(records),
        valid_count(records) + error_count(records) <= records.len(),
        all_debts(handled_all(w, records).result.all) == all_debts(w.result.all).add(
            read_debts(records),
        ),
    decreases records.len(),
{
    if records.len() == 0 {
        assert(all_debts(w.result.all).add(Multiset::empty()) =~= all_debts(w.result.all));
    } else {
        lemma_handled(w, records.drop_last());
        let before = handled_all(w, records.drop_last());
        match decoded(records.last()) {
            Some(dr) => {
                lemma_absorbed_in_range(
                    before.result,
                    seq![dr.company],
                    dr.phones,
                    seq![dr.debt],
                );
                lemma_absorbed_debts(before.result, seq![dr.company], dr.phones, seq![dr.debt]);
                lemma_one_debt(dr.debt);
                assert(all_debts(handled_all(w, records).result.all) =~= all_debts(
                    w.result.all,
                ).add(read_debts(records))) by {
                    lemma_debts_insert(all_debts(w.result.all), read_debts(records.drop_last()), dr.debt);
                }
            },
            None => {},
        }
    }
}

/// One amount alone.
proof fn lemma_one_debt(d: Debt)
    ensures
        seq![d].to_multiset() == Multiset::<Debt>::empty().insert(d),
{
    broadcast use vstd::multiset::group_multiset_axioms;

    assert(seq![d] =~= Seq::<Debt>::empty().push(d));
    vstd::seq_lib::to_multiset_build(Seq::<Debt>::empty(), d);
    vstd::seq_lib::to_multiset_len(Seq::<Debt>::empty());
    vstd::multiset::lemma_multiset_empty_len(Seq::<Debt>::empty().to_multiset());
    assert(Seq::<Debt>::empty().to_multiset() =~= Multiset::<Debt>::empty());
}

/// An amount more on either side of a sum is an amount more in the sum.
proof fn lemma_debts_insert(m: Multiset<Debt>, n: Multiset<Debt>, d: Debt)
    ensures
        m.add(n.insert(d)) == m.add(n).add(Multiset::empty().insert(d)),
        m.add(n.insert(d)) == m.add(n).insert(d),
        m.insert(d).add(n) == m.add(n).insert(d),
{
    broadcast use vstd::multiset::group_multiset_axioms;

    assert(m.add(n.insert(d)) =~= m.add(n).add(Multiset::empty().insert(d)));
    assert(m.add(n.insert(d)) =~= m.add(n).insert(d));
    assert(m.insert(d).add(n) =~= m.add(n).insert(d));
}

/// The debts that the shares of the workers from `lo` up to `hi` hold.
pub open spec fn shares_debts(records: Seq<Seq<u8>>, who: Seq<int>, lo: int, hi: int) -> Multiset<
    Debt,
>
    decreases hi - lo,
{
    if lo >= hi {
        Multiset::empty()
    } else {
        shares_debts(records, who, lo + 1, hi).add(read_debts(taken(records, who, lo)))
    }
}

/// How many records of the shares of the workers from `lo` up to `hi` are
/// JSON objects.
pub open spec fn shares_valid(records: Seq<Seq<u8>>, who: Seq<int>, lo: int, hi: int) -> nat
    decreases hi - lo,
{
    if lo >= hi {
        0
    } else {
        shares_valid(records, who, lo + 1, hi) + valid_count(taken(records, who, lo))
    }
}

/// How many records of the shares of the workers from `lo` up to `hi` are
/// malformed.
pub open spec fn shares_errors(records: Seq<Seq<u8>>, who: Seq<int>, lo: int, hi: int) -> nat
    decreases hi - lo,
{
    if lo >= hi {
        0
    } else {
        shares_errors(records, who, lo + 1, hi) + error_count(taken(records, who, lo))
    }
}

/// A share holds no more records than there are.
pub proof fn lemma_taken_len(records: Seq<Seq<u8>>, who: Seq<int>, w: int)
    ensures
        taken(records, who, w).len() <= records.len(),
    decreases records.len(),
{
    if records.len() > 0 && who.len() > 0 {
        lemma_taken_len(records.drop_last(), who.drop_last(), w);
    }
}

/// One record more goes to one worker: the shares of the workers from `lo` up
/// to `hi` count it and hold its debt where its worker is among them, and
/// are the same where not.
proof fn lemma_shares_step(records: Seq<Seq<u8>>, who: Seq<int>, lo: int, hi: int)
    requires
        records.len() > 0,
        who.len() == records.len(),
    ensures
        shares_errors(records, who, lo, hi) == shares_errors(
            records.drop_last(),
            who.drop_last(),
            lo,
            hi,
        ) + if lo <= who.last() < hi && malformed(records.last()) {
            1nat
        } else {
            0nat
        },
        shares_valid(records, who, lo, hi) == shares_valid(
            records.drop_last(),
            who.drop_last(),
            lo,
            hi,
        ) + if lo <= who.last() < hi && decoded(records.last()) is Some {
            1nat
        } else {
            0nat
        },
        shares_debts(records, who, lo, hi) == if lo <= who.last() < hi && decoded(
            records.last(),
        ) is Some {
            shares_debts(records.drop_last(), who.drop_last(), lo, hi).insert(
                decoded(records.last())->0.debt,
            )
        } else {
            shares_debts(records.drop_last(), who.drop_last(), lo, hi)
        },
    decreases hi - lo,
{
    if lo < hi {
        lemma_shares_step(records, who, lo + 1, hi);
        let r0 = records.drop_last();
        let w0 = who.drop_last();
        let share = taken(records, who, lo);
        let share0 = taken(r0, w0, lo);
        if who.last() == lo {
            assert(share == share0.push(records.last()));
            assert(share.drop_last() =~= share0);
            assert(share.last() == records.last());
            if decoded(records.last()) is Some {
                let d = decoded(records.last())->0.debt;
                lemma_debts_insert(shares_debts(r0, w0, lo + 1, hi), read_debts(share0), d);
            }
        } else {
            assert(share == share0);
            if lo + 1 <= who.last() < hi && decoded(records.last()) is Some {
                let d = decoded(records.last())->0.debt;
                lemma_debts_insert(shares_debts(r0, w0, lo + 1, hi), read_debts(share0), d);
            }
        }
    }
}

/// The shares of all workers together are all the records: as many JSON
/// objects, as many malformed records, and the same debts.
pub proof fn lemma_shares(records: Seq<Seq<u8>>, who: Seq<int>, n: int)
    requires
        who.len() == records.len(),
        forall|i: int| 0 <= i < who.len() ==> 0 <= #[trigger] who[i] < n,
    ensures
        shares_errors(records, who, 0, n) == error_count(records),
        shares_valid(records, who, 0, n) == valid_count(records),
        shares_debts(records, who, 0, n) == read_debts(records),
    decreases records.len(),
{
    if records.len() == 0 {
        lemma_no_shares(records, who, 0, n);
    } else {
        assert(0 <= who[who.len() - 1] < n);
        assert forall|i: int| 0 <= i < who.drop_last().len() implies 0 <= #[trigger] who.drop_last()[i]
            < n by {
            assert(who.drop_last()[i] == who[i]);
        }
        lemma_shares(records.drop_last(), who.drop_last(), n);
        lemma_shares_step(records, who, 0, n);
    }
}

/// Of no records every share is empty.
proof fn lemma_no_shares(records: Seq<Seq<u8>>, who: Seq<int>, lo: int, hi: int)
    requires
        records.len() == 0,
    ensures
        shares_errors(records, who, lo, hi) == 0,
        shares_valid(records, who, lo, hi) == 0,
        shares_debts(records, who, lo, hi) == Multiset::<Debt>::empty(),
    decreases hi - lo,
{
    if lo < hi {
        lemma_no_shares(records, who, lo + 1, hi);
        assert(Multiset::<Debt>::empty().add(Multiset::empty()) =~= Multiset::<Debt>::empty());
    }
}

/// What the total holds after the last `j` of `n` workers were joined: the
/// counts and the debts of their shares.
pub proof fn lemma_gathered(records: Seq<Seq<u8>>, who: Seq<int>, n: int, j: int)
    requires
        0 <= j <= n,
        who.len() == records.len(),
    ensures
        in_range(gathered(records, who, n, j).result),
        gathered(records, who, n, j).processed == shares_valid(records, who, n - j, n),
        gathered(records, who, n, j).errors == shares_errors(records, who, n - j, n),
        all_debts(gathered(records, who, n, j).result.all) == shares_debts(
            records,
            who,
            n - j,
            n,
        ),
    decreases j,
{
    if j > 0 {
        lemma_gathered(records, who, n, j - 1);
        let total = gathered(records, who, n, j - 1);
        let share = taken(records, who, n - j);
        lemma_handled(idle(), share);
        assert(all_debts(empty_debtors().all).add(read_debts(share)) =~= read_debts(share));
        if total.result.all.len() == 0 {
            assert(total.result.all =~= Seq::empty());
            assert(Multiset::<Debt>::empty().add(read_debts(share)) =~= read_debts(share));
        } else {
            lemma_merged_debts(total.result, handled_all(idle(), share).result.all);
        }
    }
}

/// However the records are dealt out to `n` workers, the workers together,
/// joined in their order, count what the run in line counts, processed
/// records and errors, and their merged graph holds the same debts.
pub proof fn lemma_dealt_out(records: Seq<Seq<u8>>, who: Seq<int>, n: int)
    requires
        0 <= n,
        who.len() == records.len(),
        forall|i: int| 0 <= i < who.len() ==> 0 <= #[trigger] who[i] < n,
    ensures
        gathered(records, who, n, n).processed == handled_all(idle(), records).processed,
        gathered(records, who, n, n).errors == handled_all(idle(), records).errors,
        all_debts(gathered(records, who, n, n).result.all) == all_debts(
            handled_all(idle(), records).result.all,
        ),
{
    lemma_gathered(records, who, n, n);
    lemma_shares(records, who, n);
    lemma_handled(idle(), records);
    assert(all_debts(empty_debtors().all).add(read_debts(records)) =~= read_debts(records));
}

/// Every record that is a JSON object names one phone at most.
pub open spec fn plain_records(records: Seq<Seq<u8>>) -> bool {
    forall|i: int|
        0 <= i < records.len() && decoded(#[trigger] records[i]) is Some ==> one_phone(
            decoded(records[i])->0.phones,
        )
}

/// What those of the records hold that are JSON objects.
pub open spec fn read_content(records: Seq<Seq<u8>>) -> Content
    decreases records.len(),
{
    if records.len() == 0 {
        no_content()
    } else {
        match decoded(records.last()) {
            Some(dr) => plus(read_content(records.drop_last()), unit_of(dr)),
            None => read_content(records.drop_last()),
        }
    }
}

/// What the shares of the workers from `lo` up to `hi` hold.
pub open spec fn shares_content(records: Seq<Seq<u8>>, who: Seq<int>, lo: int, hi: int) -> Content
    decreases hi - lo,
{
    if lo >= hi {
        no_content()
    } else {
        plus(shares_content(records, who, lo + 1, hi), read_content(taken(records, who, lo)))
    }
}

/// Without its last record, a list of records with one phone at most is
/// such a list.
proof fn lemma_plain_records_shorter(records: Seq<Seq<u8>>)
    requires
        plain_records(records),
        records.len() > 0,
    ensures
        plain_records(records.drop_last()),
        decoded(records.last()) is Some ==> one_phone(decoded(records.last())->0.phones),
{
    assert(records.last() == records[records.len() - 1]);
    assert forall|i: int|
        0 <= i < records.drop_last().len() && decoded(
            #[trigger] records.drop_last()[i],
        ) is Some implies one_phone(decoded(records.drop_last()[i])->0.phones) by {
        assert(records.drop_last()[i] == records[i]);
    }
}

/// A worker that takes records with one phone at most adds what they hold
/// to what its graph holds.
pub proof fn lemma_handled_plain(w: WorkerView, records: Seq<Seq<u8>>)
    requires
        plain(w.result),
        plain_records(records),
        w.result.all.len() + records.len() <= usize::MAX,
    ensures
        plain(handled_all(w, records).result),
        handled_all(w, records).result.all.len() <= w.result.all.len() + records.len(),
        content(handled_all(w, records).result) == plus(
            content(w.result),
            read_content(records),
        ),
    decreases records.len(),
{
    if records.len() == 0 {
        lemma_plus(content(w.result), no_content(), no_content());
    } else {
        lemma_plain_records_shorter(records);
        lemma_handled_plain(w, records.drop_last());
        let before = handled_all(w, records.drop_last());
        match decoded(records.last()) {
            Some(dr) => {
                lemma_absorbed_plain(before.result, seq![dr.company], dr.phones, seq![dr.debt]);
                crate::debtors::lemma_absorbed_well_formed(
                    before.result,
                    seq![dr.company],
                    dr.phones,
                    seq![dr.debt],
                );
                lemma_plus(content(w.result), read_content(records.drop_last()), unit_of(dr));
            },
            None => {},
        }
    }
}

/// A share of records with one phone at most is such a list.
proof fn lemma_taken_plain(records: Seq<Seq<u8>>, who: Seq<int>, w: int)
    requires
        plain_records(records),
    ensures
        plain_records(taken(records, who, w)),
    decreases records.len(),
{
    if records.len() > 0 && who.len() > 0 {
        lemma_plain_records_shorter(records);
        lemma_taken_plain(records.drop_last(), who.drop_last(), w);
        let rest = taken(records.drop_last(), who.drop_last(), w);
        let share = taken(records, who, w);
        if who.last() == w {
            assert forall|i: int|
                0 <= i < share.len() && decoded(#[trigger] share[i]) is Some implies one_phone(
                decoded(share[i])->0.phones,
            ) by {
                if i < rest.len() {
                    assert(share[i] == rest[i]);
                } else {
                    assert(share[i] == records.last());
                }
            }
        }
    }
}

/// One record more goes to one worker: the shares of the workers from `lo` up
/// to `hi` hold what it holds where its worker is among them and it can be
/// a JSON object, and are the same where not.
proof fn lemma_shares_content_step(records: Seq<Seq<u8>>, who: Seq<int>, lo: int, hi: int)
    requires
        records.len() > 0,
        who.len() == records.len(),
    ensures
        shares_content(records, who, lo, hi) == if lo <= who.last() < hi && decoded(
            records.last(),
        ) is Some {
            plus(
                shares_content(records.drop_last(), who.drop_last(), lo, hi),
                unit_of(decoded(records.last())->0),
            )
        } else {
            shares_content(records.drop_last(), who.drop_last(), lo, hi)
        },
    decreases hi - lo,
{
    if lo < hi {
        lemma_shares_content_step(records, who, lo + 1, hi);
        let r0 = records.drop_last();
        let w0 = who.drop_last();
        let share = taken(records, who, lo);
        let share0 = taken(r0, w0, lo);
        let above0 = shares_content(r0, w0, lo + 1, hi);
        if decoded(records.last()) is Some {
            let one = unit_of(decoded(records.last())->0);
            if who.last() == lo {
                assert(share == share0.push(records.last()));
                assert(share.drop_last() =~= share0);
                assert(share.last() == records.last());
                lemma_plus(above0, read_content(share0), one);
            } else {
                assert(share == share0);
                if lo + 1 <= who.last() < hi {
                    lemma_plus(above0, one, read_content(share0));
                    lemma_plus(one, read_content(share0), no_content());
                    lemma_plus(above0, read_content(share0), one);
                }
            }
        } else {
            if who.last() == lo {
                assert(share == share0.push(records.last()));
                assert(share.drop_last() =~= share0);
                assert(share.last() == records.last());
            } else {
                assert(share == share0);
            }
        }
    }
}

/// Of no records the shares hold nothing.
proof fn lemma_no_shares_content(records: Seq<Seq<u8>>, who: Seq<int>, lo: int, hi: int)
    requires
        records.len() == 0,
    ensures
        shares_content(records, who, lo, hi) == no_content(),
    decreases hi - lo,
{
    if lo < hi {
        lemma_no_shares_content(records, who, lo + 1, hi);
        lemma_plus(no_content(), no_content(), no_content());
    }
}

/// The shares of all workers together hold what the records hold.
pub proof fn lemma_shares_content(records: Seq<Seq<u8>>, who: Seq<int>, n: int)
    requires
        who.len() == records.len(),
        forall|i: int| 0 <= i < who.len() ==> 0 <= #[trigger] who[i] < n,
    ensures
        shares_content(records, who, 0, n) == read_content(records),
    decreases records.len(),
{
    if records.len() == 0 {
        lemma_no_shares_content(records, who, 0, n);
    } else {
        assert(0 <= who[who.len() - 1] < n);
        assert forall|i: int| 0 <= i < who.drop_last().len() implies 0 <= #[trigger] who.drop_last()[i]
            < n by {
            assert(who.drop_last()[i] == who[i]);
        }
        lemma_shares_content(records.drop_last(), who.drop_last(), n);
        lemma_shares_content_step(records, who, 0, n);
    }
}

/// What the total holds after the last `j` of `n` workers were joined, where
/// every record names one phone at most: what their shares hold.
pub proof fn lemma_gathered_plain(records: Seq<Seq<u8>>, who: Seq<int>, n: int, j: int)
    requires
        0 <= j <= n,
        who.len() == records.len(),
        plain_records(records),
        n * records.len() <= usize::MAX,
    ensures
        plain(gathered(records, who, n, j).result),
        gathered(records, who, n, j).result.all.len() <= j * records.len(),
        content(gathered(records, who, n, j).result) == shares_content(records, who, n - j, n),
    decreases j,
{
    let len = records.len() as int;
    if j == 0 {
        assert(0 * len == 0);
        assert(content(empty_debtors()).by_phone =~= no_content().by_phone);
        assert(content(empty_debtors()) =~= no_content());
    } else {
        lemma_gathered_plain(records, who, n, j - 1);
        let total = gathered(records, who, n, j - 1);
        let share = taken(records, who, n - j);
        let part = handled_all(idle(), share);
        lemma_taken_len(records, who, n - j);
        lemma_taken_plain(records, who, n - j);
        assert((j - 1) * len + len == j * len) by (nonlinear_arith);
        assert(j * len <= n * len) by (nonlinear_arith)
            requires
                0 <= j <= n,
                0 <= len,
        ;
        assert(content(empty_debtors()).by_phone =~= no_content().by_phone);
        assert(content(empty_debtors()) =~= no_content());
        lemma_handled_plain(idle(), share);
        lemma_plus(read_content(share), no_content(), no_content());
        lemma_folded_plain(total.result, part.result);
    }
}

/// However records with one phone at most are dealt out to `n` workers, the
/// merged graph holds what the graph of the run in line holds: for every
/// phone the same companies and debts, and the same nodes without a phone.
/// Each node of either graph is what belongs to one phone, or one record
/// without a phone.
pub proof fn lemma_dealt_out_plain(records: Seq<Seq<u8>>, who: Seq<int>, n: int)
    requires
        0 <= n,
        who.len() == records.len(),
        forall|i: int| 0 <= i < who.len() ==> 0 <= #[trigger] who[i] < n,
        plain_records(records),
        n * records.len() <= usize::MAX,
        records.len() <= usize::MAX,
    ensures
        plain(gathered(records, who, n, n).result),
        plain(handled_all(idle(), records).result),
        content(gathered(records, who, n, n).result) == content(
            handled_all(idle(), records).result,
        ),
{
    lemma_gathered_plain(records, who, n, n);
    lemma_shares_content(records, who, n);
    assert(content(empty_debtors()).by_phone =~= no_content().by_phone);
    assert(content(empty_debtors()) =~= no_content());
    lemma_handled_plain(idle(), records);
    lemma_plus(read_content(records), no_content(), no_content());
}

/// What those of the records say that are JSON objects, in their order.
pub open spec fn read_records(records: Seq<Seq<u8>>) -> Seq<DebtRecView>
    decreases records.len(),
{
    if records.len() == 0 {
        Seq::empty()
    } else {
        match decoded(records.last()) {
            Some(dr) => read_records(records.drop_last()).push(dr),
            None => read_records(records.drop_last()),
        }
    }
}

/// The workers of those of the records that are JSON objects, in their
/// order.
pub open spec fn read_who(records: Seq<Seq<u8>>, who: Seq<int>) -> Seq<int>
    decreases records.len(),
{
    if records.len() == 0 || who.len() == 0 {
        Seq::empty()
    } else if decoded(records.last()) is Some {
        read_who(records.drop_last(), who.drop_last()).push(who.last())
    } else {
        read_who(records.drop_last(), who.drop_last())
    }
}

/// The graph of a worker that began with nothing is the graph of what its
/// records say, taken in line.
pub proof fn lemma_handled_line(records: Seq<Seq<u8>>)
    ensures
        handled_all(idle(), records).result == line(read_records(records)),
        read_records(records).len() <= records.len(),
    decreases records.len(),
{
    if records.len() > 0 {
        lemma_handled_line(records.drop_last());
        match decoded(records.last()) {
            Some(dr) => {
                assert(read_records(records).drop_last() =~= read_records(records.drop_last()));
            },
            None => {},
        }
    }
}

/// What the share of a worker says is its share of what the records say.
pub proof fn lemma_read_taken(records: Seq<Seq<u8>>, who: Seq<int>, w: int)
    requires
        who.len() == records.len(),
    ensures
        read_records(taken(records, who, w)) == share(
            read_records(records),
            read_who(records, who),
            w,
        ),
        read_who(records, who).len() == read_records(records).len(),
    decreases records.len(),
{
    if records.len() > 0 {
        let r0 = records.drop_last();
        let w0 = who.drop_last();
        lemma_read_taken(r0, w0, w);
        let mine = taken(records, who, w);
        let mine0 = taken(r0, w0, w);
        let said = read_records(records);
        let by = read_who(records, who);
        if who.last() == w {
            assert(mine.drop_last() =~= mine0);
            assert(mine.last() == records.last());
        }
        if decoded(records.last()) is Some {
            assert(said.drop_last() =~= read_records(r0));
            assert(by.drop_last() =~= read_who(r0, w0));
            assert(by.last() == who.last());
        }
    }
}

/// The graph that the workers' graphs are merged into is the graph that
/// what the records say gives, dealt out in the same way.
pub proof fn lemma_gathered_dealt(records: Seq<Seq<u8>>, who: Seq<int>, n: int, j: int)
    requires
        who.len() == records.len(),
    ensures
        gathered(records, who, n, j).result == dealt(
            read_records(records),
            read_who(records, who),
            n,
            j,
        ),
    decreases j,
{
    if j > 0 {
        lemma_gathered_dealt(records, who, n, j - 1);
        lemma_handled_line(taken(records, who, n - j));
        lemma_read_taken(records, who, n - j);
    }
}

/// Records dealt out to workers without a clash give the nodes of the run
/// in line: where what the records say is dealt out without a clash, the
/// graph that the workers' graphs are merged into holds node by node the
/// same companies, phones and debts as the graph of the run in line. A
/// record may name several phones.
pub proof fn lemma_dealt_out_nodes(records: Seq<Seq<u8>>, who: Seq<int>, n: int)
    requires
        0 <= n,
        who.len() == records.len(),
        well_dealt(read_records(records), read_who(records, who), n),
        2 * records.len() < usize::MAX,
    ensures
        summaries(gathered(records, who, n, n).result.all) == summaries(
            handled_all(idle(), records).result.all,
        ),
{
    lemma_gathered_dealt(records, who, n, n);
    lemma_handled_line(records);
    lemma_dealt_as_in_line(read_records(records), read_who(records, who), n);
}

} // verus!
