//! A stream of records dealt out to two sides.
//!
//! Each side folds its records into a graph of its own, and a third graph
//! takes all the records in line. Where no record leads to two nodes, in
//! line or on its side, and the graphs of the two sides share phones one to
//! one, the graph in line holds what the two sides hold together: every
//! node of one side with its partner on the other, and every other node
//! alone.

use crate::debtors::{
    empty_debtor, empty_debtors, first_match, index_exact, inserted, inserted_all,
    lemma_absorbed_exact, lemma_absorbed_well_formed, lemma_first_match, lemma_pointed,
    lemma_with_items, single_minded, well_formed, with_items, DebtorView, DebtorsView,
};
use crate::extract::DebtRecView;
use crate::laws::{folded, lemma_inserted_all_well_formed};
use crate::matching::{
    extra, joined, joined_sum, lemma_add_insert, lemma_at_most_one_shorter, lemma_cancel,
    lemma_extra_same, lemma_insert_count, lemma_insert_swap, lemma_joined,
    lemma_lone_sum_loses, lemma_lone_sum_same, lemma_merged_paired, lemma_paired,
    lemma_paired_empty, lemma_summaries_push, lemma_summaries_update, lemma_summary_grown,
    lemma_touching, lone_sum, nothing, one_to_one, paired, partner, shared, summaries, summary,
    touched, touching, Summary,
};
use vstd::multiset::Multiset;
use vstd::prelude::*;

verus! {

/// A record as a node of its own.
pub open spec fn as_node(dr: DebtRecView) -> DebtorView {
    DebtorView { companies: seq![dr.company], phones: dr.phones, debts: seq![dr.debt] }
}

/// The node `x` after it took up the node `y`.
pub open spec fn grown(x: DebtorView, y: DebtorView) -> DebtorView {
    DebtorView {
        companies: with_items(x.companies, y.companies),
        phones: with_items(x.phones, y.phones),
        debts: x.debts + y.debts,
    }
}

/// Joining three summaries does not depend on the order.
pub proof fn lemma_joined3(a: Summary, b: Summary, c: Summary)
    ensures
        joined(joined(a, b), c) == joined(a, joined(b, c)),
        joined(joined(a, b), c) == joined(joined(a, c), b),
{
    broadcast use vstd::multiset::group_multiset_axioms;

    let l = joined(joined(a, b), c);
    let r = joined(a, joined(b, c));
    let m = joined(joined(a, c), b);
    assert(l.companies =~= r.companies && l.phones =~= r.phones && l.debts =~= r.debts);
    assert(l.companies =~= m.companies && l.phones =~= m.phones && l.debts =~= m.debts);
}

/// What a grown node holds, and which phones.
pub proof fn lemma_grown(x: DebtorView, y: DebtorView)
    ensures
        summary(grown(x, y)) == joined(summary(x), summary(y)),
        forall|p: Seq<char>| #[trigger]
            grown(x, y).phones.contains(p) <==> x.phones.contains(p) || y.phones.contains(p),
        forall|z: DebtorView| #[trigger]
            touching(grown(x, y), z) <==> touching(x, z) || touching(y, z),
{
    lemma_summary_grown(x, y);
    lemma_with_items(x.phones, y.phones);
    assert forall|z: DebtorView| #[trigger]
        touching(grown(x, y), z) <==> touching(x, z) || touching(y, z) by {
        if touching(grown(x, y), z) {
            let p = choose|p: Seq<char>| shared(grown(x, y), z, p);
            if x.phones.contains(p) {
                assert(shared(x, z, p));
            } else {
                assert(shared(y, z, p));
            }
        }
        if touching(x, z) {
            let p = choose|p: Seq<char>| shared(x, z, p);
            assert(shared(grown(x, y), z, p));
        }
        if touching(y, z) {
            let p = choose|p: Seq<char>| shared(y, z, p);
            assert(shared(grown(x, y), z, p));
        }
    }
}

/// A node of `a` that changes takes its old term out of the sum and puts its
/// new one in.
pub proof fn lemma_joined_sum_update(a: Seq<DebtorView>, b: Seq<DebtorView>, at: int, n: DebtorView)
    requires
        0 <= at < a.len(),
    ensures
        joined_sum(a.update(at, n), b).insert(joined(summary(a[at]), extra(b, a[at])))
            == joined_sum(a, b).insert(joined(summary(n), extra(b, n))),
    decreases a.len(),
{
    let after = a.update(at, n);
    let rest = joined_sum(a.drop_last(), b);
    let old_term = joined(summary(a[at]), extra(b, a[at]));
    let new_term = joined(summary(n), extra(b, n));
    if at == a.len() - 1 {
        assert(after.drop_last() =~= a.drop_last());
        lemma_insert_swap(rest, new_term, old_term);
    } else {
        assert(after.drop_last() =~= a.drop_last().update(at, n));
        lemma_joined_sum_update(a.drop_last(), b, at, n);
        let changed = joined_sum(a.drop_last().update(at, n), b);
        let last_term = joined(summary(a.last()), extra(b, a.last()));
        lemma_insert_swap(changed, last_term, old_term);
        lemma_insert_swap(rest, last_term, new_term);
    }
}

/// A node more in `a` is a term more in the sum.
pub proof fn lemma_joined_sum_push(a: Seq<DebtorView>, b: Seq<DebtorView>, n: DebtorView)
    ensures
        joined_sum(a.push(n), b) == joined_sum(a, b).insert(joined(summary(n), extra(b, n))),
{
    assert(a.push(n).drop_last() =~= a);
}

/// Where the same nodes of `b` share a phone with a node of `a` and of
/// `other`, the same nodes of `b` are without a partner.
pub proof fn lemma_lone_sum_keep(b: Seq<DebtorView>, a: Seq<DebtorView>, other: Seq<DebtorView>)
    requires
        forall|k: int| 0 <= k < b.len() ==> touched(other, #[trigger] b[k]) == touched(a, b[k]),
    ensures
        lone_sum(b, other) == lone_sum(b, a),
    decreases b.len(),
{
    if b.len() > 0 {
        assert forall|k: int| 0 <= k < b.drop_last().len() implies touched(
            other,
            #[trigger] b.drop_last()[k],
        ) == touched(a, b.drop_last()[k]) by {
            assert(b.drop_last()[k] == b[k]);
        }
        lemma_lone_sum_keep(b.drop_last(), a, other);
        assert(b.last() == b[b.len() - 1]);
    }
}

/// A node of `a` that changes, and shares a phone with `y` after as before,
/// leaves `y` with the partner it had.
pub proof fn lemma_touched_update(a: Seq<DebtorView>, at: int, n: DebtorView, y: DebtorView)
    requires
        0 <= at < a.len(),
        touching(n, y) == touching(a[at], y),
    ensures
        touched(a.update(at, n), y) == touched(a, y),
{
    let after = a.update(at, n);
    if touched(after, y) {
        let j = choose|j: int| 0 <= j < after.len() && touching(#[trigger] after[j], y);
        if j == at {
            assert(touching(a[at], y));
        } else {
            assert(after[j] == a[j]);
            assert(touching(a[j], y));
        }
    }
    if touched(a, y) {
        let j = choose|j: int| 0 <= j < a.len() && touching(#[trigger] a[j], y);
        if j == at {
            assert(touching(after[at], y));
        } else {
            assert(after[j] == a[j]);
            assert(touching(after[j], y));
        }
    }
}

/// The node of the graph that the phone `p` points to.
pub open spec fn node_of(a: DebtorsView, p: Seq<char>) -> DebtorView {
    a.all[a.index_by_phone[p] as int]
}

/// A graph that is well formed, with every phone of a node pointing to that
/// node.
pub open spec fn exact_graph(g: DebtorsView) -> bool {
    well_formed(g) && index_exact(g)
}

/// The graph in line knows the phones that one of the two sides knows.
pub open spec fn known_alike(g: DebtorsView, a: DebtorsView, b: DebtorsView) -> bool {
    forall|p: Seq<char>| #[trigger]
        g.index_by_phone.contains_key(p) <==> a.index_by_phone.contains_key(p)
            || b.index_by_phone.contains_key(p)
}

/// For every phone of the side `a`, the node in line that it points to holds
/// what its node in `a` holds together with that node's partner in `b`.
pub open spec fn holds_with(g: DebtorsView, a: DebtorsView, b: DebtorsView) -> bool {
    forall|p: Seq<char>| #[trigger]
        a.index_by_phone.contains_key(p) ==> summary(node_of(g, p)) == joined(
            summary(node_of(a, p)),
            extra(b.all, node_of(a, p)),
        )
}

/// The graph in line and the graphs of the two sides are in step: all three
/// exact, the two sides sharing phones one to one, and the graph in line
/// holding what the two sides hold together.
pub open spec fn in_step(g: DebtorsView, a: DebtorsView, b: DebtorsView) -> bool {
    &&& exact_graph(g)
    &&& exact_graph(a)
    &&& exact_graph(b)
    &&& one_to_one(a.all, b.all)
    &&& known_alike(g, a, b)
    &&& holds_with(g, a, b)
    &&& holds_with(g, b, a)
    &&& summaries(g.all) == paired(a.all, b.all)
}

/// Being in step does not depend on which side is named first.
pub proof fn lemma_in_step_swap(g: DebtorsView, a: DebtorsView, b: DebtorsView)
    requires
        in_step(g, a, b),
    ensures
        in_step(g, b, a),
{
    lemma_paired(a.all, b.all);
}

/// A record of which no phone is known in line makes a node of its own, in
/// line and on its side, and the graphs stay in step.
proof fn lemma_step_fresh(g: DebtorsView, a: DebtorsView, b: DebtorsView, dr: DebtRecView)
    requires
        in_step(g, a, b),
        first_match(g.index_by_phone, dr.phones) is None,
        one_to_one(inserted(a, dr).all, b.all),
        g.all.len() < usize::MAX,
        a.all.len() < usize::MAX,
    ensures
        in_step(inserted(g, dr), inserted(a, dr), b),
{
    let phones = dr.phones;
    let n = grown(empty_debtor(), as_node(dr));
    let g1 = inserted(g, dr);
    let a1 = inserted(a, dr);
    lemma_first_match(g.index_by_phone, phones, 0);
    lemma_first_match(a.index_by_phone, phones, 0);
    assert forall|k: int| 0 <= k < phones.len() implies !a.index_by_phone.contains_key(
        #[trigger] phones[k],
    ) by {
        assert(!g.index_by_phone.contains_key(phones[k]));
    }
    assert(first_match(a.index_by_phone, phones) is None);
    assert(single_minded(g, phones));
    assert(single_minded(a, phones));
    lemma_absorbed_well_formed(g, seq![dr.company], phones, seq![dr.debt]);
    lemma_absorbed_exact(g, seq![dr.company], phones, seq![dr.debt]);
    lemma_absorbed_well_formed(a, seq![dr.company], phones, seq![dr.debt]);
    lemma_absorbed_exact(a, seq![dr.company], phones, seq![dr.debt]);
    lemma_pointed(g.index_by_phone, phones, g.all.len() as usize);
    lemma_pointed(a.index_by_phone, phones, a.all.len() as usize);
    lemma_grown(empty_debtor(), as_node(dr));
    assert(g1.all =~= g.all.push(n));
    assert(a1.all =~= a.all.push(n));
    assert forall|p: Seq<char>| n.phones.contains(p) implies !g.index_by_phone.contains_key(p) by {
        assert(phones.contains(p));
        let k = choose|k: int| 0 <= k < phones.len() && phones[k] == p;
        assert(!g.index_by_phone.contains_key(phones[k]));
    }
    // the new node shares no phone with a node of the other side
    assert forall|k: int| 0 <= k < b.all.len() implies !touching(n, #[trigger] b.all[k]) by {
        if touching(n, b.all[k]) {
            let p = choose|p: Seq<char>| shared(n, b.all[k], p);
            assert(b.all[k].phones.contains(p));
            assert(b.index_by_phone.contains_key(p));
            assert(g.index_by_phone.contains_key(p));
        }
    }
    assert(!touched(b.all, n)) by {
        if touched(b.all, n) {
            let j = choose|j: int| 0 <= j < b.all.len() && touching(#[trigger] b.all[j], n);
            lemma_touching(b.all[j], n);
        }
    }
    lemma_joined(summary(n), nothing());
    lemma_summaries_push(g.all, n);
    lemma_joined_sum_push(a.all, b.all, n);
    lemma_lone_sum_same(b.all, a.all, n);
    lemma_add_insert(joined_sum(a.all, b.all), lone_sum(b.all, a.all), summary(n));
    assert(summaries(g1.all) == paired(a1.all, b.all));
    assert forall|p: Seq<char>| #[trigger]
        g1.index_by_phone.contains_key(p) <==> a1.index_by_phone.contains_key(p)
            || b.index_by_phone.contains_key(p) by {
        assert(g.index_by_phone.contains_key(p) <==> a.index_by_phone.contains_key(p)
            || b.index_by_phone.contains_key(p));
    }
    assert forall|p: Seq<char>| #[trigger] a1.index_by_phone.contains_key(p) implies summary(
        node_of(g1, p),
    ) == joined(summary(node_of(a1, p)), extra(b.all, node_of(a1, p))) by {
        if phones.contains(p) {
            assert(node_of(g1, p) == n);
            assert(node_of(a1, p) == n);
        } else {
            assert(a.index_by_phone.contains_key(p));
            assert(g.index_by_phone.contains_key(p));
            assert(node_of(g1, p) == node_of(g, p));
            assert(node_of(a1, p) == node_of(a, p));
        }
    }
    assert forall|q: Seq<char>| #[trigger] b.index_by_phone.contains_key(q) implies summary(
        node_of(g1, q),
    ) == joined(summary(node_of(b, q)), extra(a1.all, node_of(b, q))) by {
        assert(g.index_by_phone.contains_key(q));
        if phones.contains(q) {
            assert(n.phones.contains(q));
        }
        assert(node_of(g1, q) == node_of(g, q));
        let k = b.index_by_phone[q] as int;
        let y = b.all[k];
        assert forall|i: int, j: int|
            0 <= i < a.all.len() && 0 <= j < a.all.len() && #[trigger] touching(a.all[i], y)
                && #[trigger] touching(a.all[j], y) implies i == j by {
            lemma_touching(a.all[i], y);
            lemma_touching(a.all[j], y);
            assert(touching(b.all[k], a.all[i]) && touching(b.all[k], a.all[j]));
        }
        lemma_extra_same(a.all, n, y);
    }
}

/// A record of which a phone is known on its own side goes to the node of
/// that phone there, and in line to the node that holds it, and the graphs
/// stay in step.
#[verifier::rlimit(60)]
proof fn lemma_step_own(g: DebtorsView, a: DebtorsView, b: DebtorsView, dr: DebtRecView)
    requires
        in_step(g, a, b),
        first_match(a.index_by_phone, dr.phones) is Some,
        single_minded(g, dr.phones),
        single_minded(a, dr.phones),
        one_to_one(inserted(a, dr).all, b.all),
        g.all.len() < usize::MAX,
        a.all.len() < usize::MAX,
    ensures
        in_step(inserted(g, dr), inserted(a, dr), b),
{
    let phones = dr.phones;
    let item = as_node(dr);
    let g1 = inserted(g, dr);
    let a1 = inserted(a, dr);
    lemma_first_match(g.index_by_phone, phones, 0);
    lemma_first_match(a.index_by_phone, phones, 0);
    let ta = first_match(a.index_by_phone, phones)->0 as int;
    let ka = choose|k: int|
        0 <= k < phones.len() && a.index_by_phone.contains_key(#[trigger] phones[k])
            && a.index_by_phone[phones[k]] == ta;
    let pa = phones[ka];
    assert(g.index_by_phone.contains_key(phones[ka]));
    assert(first_match(g.index_by_phone, phones) is Some);
    let tg = first_match(g.index_by_phone, phones)->0 as int;
    let kg = choose|k: int|
        0 <= k < phones.len() && g.index_by_phone.contains_key(#[trigger] phones[k])
            && g.index_by_phone[phones[k]] == tg;
    assert(g.index_by_phone[phones[ka]] == g.index_by_phone[phones[kg]]);
    // every known phone of the record points to the same node in line
    assert forall|q: Seq<char>|
        phones.contains(q) && g.index_by_phone.contains_key(q) implies g.index_by_phone[q]
        == tg by {
        let m = choose|m: int| 0 <= m < phones.len() && phones[m] == q;
        assert(g.index_by_phone[phones[m]] == g.index_by_phone[phones[kg]]);
    }
    assert forall|q: Seq<char>|
        phones.contains(q) && a.index_by_phone.contains_key(q) implies a.index_by_phone[q]
        == ta by {
        let m = choose|m: int| 0 <= m < phones.len() && phones[m] == q;
        assert(a.index_by_phone[phones[m]] == a.index_by_phone[phones[ka]]);
    }
    let x = a.all[ta];
    let gx = g.all[tg];
    let x1 = grown(x, item);
    let gx1 = grown(gx, item);
    let e = extra(b.all, x);
    lemma_absorbed_well_formed(g, seq![dr.company], phones, seq![dr.debt]);
    lemma_absorbed_exact(g, seq![dr.company], phones, seq![dr.debt]);
    lemma_absorbed_well_formed(a, seq![dr.company], phones, seq![dr.debt]);
    lemma_absorbed_exact(a, seq![dr.company], phones, seq![dr.debt]);
    lemma_pointed(g.index_by_phone, phones, tg as usize);
    lemma_pointed(a.index_by_phone, phones, ta as usize);
    lemma_grown(x, item);
    lemma_grown(gx, item);
    assert(g1.all =~= g.all.update(tg, gx1));
    assert(a1.all =~= a.all.update(ta, x1));
    assert(node_of(g, pa) == gx && node_of(a, pa) == x);
    assert(summary(gx) == joined(summary(x), e));
    assert(x.phones.contains(pa));
    // a node of the other side that shares a phone with the grown node shared one before
    assert forall|k: int| 0 <= k < b.all.len() implies touching(x1, #[trigger] b.all[k])
        == touching(x, b.all[k]) by {
        let y = b.all[k];
        if touching(x1, y) && !touching(x, y) {
            assert(touching(item, y));
            let q = choose|q: Seq<char>| shared(item, y, q);
            assert(phones.contains(q) && y.phones.contains(q));
            assert(b.index_by_phone.contains_key(q) && b.index_by_phone[q] == k);
            assert(g.index_by_phone.contains_key(q));
            assert(node_of(g, q) == gx && node_of(b, q) == y);
            assert(summary(gx) == joined(summary(y), extra(a.all, y)));
            assert(summary(gx).phones.contains(q));
            if x.phones.contains(q) {
                assert(shared(x, y, q));
            } else {
                assert(e.phones.contains(q));
                assert(touched(b.all, x));
                let j0 = partner(b.all, x);
                assert(b.all[j0].phones.contains(q));
                assert(b.index_by_phone[q] == j0);
                lemma_touching(b.all[k], x);
            }
        }
    }
    // the grown node has the partner that the node had
    assert(extra(b.all, x1) == e) by {
        if touched(b.all, x1) {
            let j1 = partner(b.all, x1);
            lemma_touching(b.all[j1], x1);
            lemma_touching(b.all[j1], x);
            assert(touching(x, b.all[j1]));
            assert(touched(b.all, x));
            let j0 = partner(b.all, x);
            lemma_touching(b.all[j0], x);
            assert(touching(a.all[ta], b.all[j1]) && touching(a.all[ta], b.all[j0]));
        }
        if touched(b.all, x) {
            let j0 = partner(b.all, x);
            lemma_touching(b.all[j0], x);
            lemma_touching(b.all[j0], x1);
            assert(touching(x1, b.all[j0]));
            assert(touched(b.all, x1));
        }
    }
    lemma_joined3(summary(x), e, summary(item));
    assert(summary(gx1) == joined(summary(x1), e));
    // what the graphs hold, node by node
    assert(summaries(g1.all) == paired(a1.all, b.all)) by {
        lemma_summaries_update(g.all, tg, gx1);
        lemma_joined_sum_update(a.all, b.all, ta, x1);
        assert forall|k: int| 0 <= k < b.all.len() implies touched(a1.all, #[trigger] b.all[k])
            == touched(a.all, b.all[k]) by {
            lemma_touched_update(a.all, ta, x1, b.all[k]);
        }
        lemma_lone_sum_keep(b.all, a.all, a1.all);
        lemma_add_insert(joined_sum(a1.all, b.all), lone_sum(b.all, a1.all), summary(gx));
        lemma_add_insert(joined_sum(a.all, b.all), lone_sum(b.all, a.all), summary(gx1));
        assert(paired(a1.all, b.all).insert(summary(gx)) == paired(a.all, b.all).insert(
            summary(gx1),
        ));
        lemma_cancel(summaries(g1.all), paired(a1.all, b.all), summary(gx));
    }
    assert forall|p: Seq<char>| #[trigger]
        g1.index_by_phone.contains_key(p) <==> a1.index_by_phone.contains_key(p)
            || b.index_by_phone.contains_key(p) by {
        assert(g.index_by_phone.contains_key(p) <==> a.index_by_phone.contains_key(p)
            || b.index_by_phone.contains_key(p));
    }
    assert forall|p: Seq<char>| #[trigger] a1.index_by_phone.contains_key(p) implies summary(
        node_of(g1, p),
    ) == joined(summary(node_of(a1, p)), extra(b.all, node_of(a1, p))) by {
        if phones.contains(p) {
            assert(node_of(g1, p) == gx1 && node_of(a1, p) == x1);
        } else {
            assert(a.index_by_phone.contains_key(p));
            assert(g.index_by_phone.contains_key(p));
            let i = a.index_by_phone[p] as int;
            let u = g.index_by_phone[p] as int;
            if i == ta {
                assert(x.phones.contains(p));
                assert(summary(gx).phones.contains(p));
                assert(gx.phones.contains(p));
                assert(u == tg);
                assert(node_of(g1, p) == gx1 && node_of(a1, p) == x1);
            } else {
                let x2 = a.all[i];
                assert(node_of(a, p) == x2);
                if u == tg {
                    assert(summary(gx) == joined(summary(x2), extra(b.all, x2)));
                    assert(summary(gx).phones.contains(pa));
                    if x2.phones.contains(pa) {
                        assert(a.all[i].phones.contains(pa));
                        assert(false);
                    }
                    assert(extra(b.all, x2).phones.contains(pa));
                    assert(touched(b.all, x2));
                    let j2 = partner(b.all, x2);
                    assert(shared(b.all[j2], x, pa));
                    assert(touching(b.all[j2], a.all[ta]) && touching(b.all[j2], a.all[i]));
                    assert(false);
                }
                assert(node_of(g1, p) == node_of(g, p));
                assert(node_of(a1, p) == x2);
            }
        }
    }
    assert forall|q: Seq<char>| #[trigger] b.index_by_phone.contains_key(q) implies summary(
        node_of(g1, q),
    ) == joined(summary(node_of(b, q)), extra(a1.all, node_of(b, q))) by {
        let k = b.index_by_phone[q] as int;
        let y = b.all[k];
        assert(g.index_by_phone.contains_key(q));
        assert(y.phones.contains(q));
        let u = g.index_by_phone[q] as int;
        assert(summary(node_of(g, q)) == joined(summary(y), extra(a.all, y)));
        if u == tg {
            assert(node_of(g1, q) == gx1);
            assert(summary(gx).phones.contains(q));
            assert(touching(x, y)) by {
                if x.phones.contains(q) {
                    assert(shared(x, y, q));
                } else {
                    assert(e.phones.contains(q));
                    assert(touched(b.all, x));
                    let j0 = partner(b.all, x);
                    assert(b.all[j0].phones.contains(q));
                    assert(b.index_by_phone[q] == j0);
                    lemma_touching(b.all[k], x);
                }
            }
            lemma_touching(x, y);
            lemma_touching(x1, y);
            assert(touching(a.all[ta], y));
            assert(touched(a.all, y));
            let j = partner(a.all, y);
            lemma_touching(a.all[j], y);
            assert(touching(b.all[k], a.all[j]) && touching(b.all[k], a.all[ta]));
            assert(extra(a.all, y) == summary(x));
            assert(touching(a1.all[ta], y));
            assert(touched(a1.all, y));
            let j1 = partner(a1.all, y);
            lemma_touching(a1.all[j1], y);
            lemma_touching(a1.all[ta], y);
            assert(touching(b.all[k], a1.all[j1]) && touching(b.all[k], a1.all[ta]));
            assert(extra(a1.all, y) == summary(x1));
            lemma_joined3(summary(y), summary(x), summary(item));
        } else {
            if phones.contains(q) {
                assert(false);
            }
            assert(node_of(g1, q) == node_of(g, q));
            assert(!touching(x, y)) by {
                if touching(x, y) {
                    let z = choose|z: Seq<char>| shared(x, y, z);
                    assert(summary(gx).phones.contains(z));
                    assert(gx.phones.contains(z));
                    assert(g.index_by_phone[z] == tg);
                    assert(b.index_by_phone.contains_key(z) && b.index_by_phone[z] == k);
                    assert(node_of(g, z) == gx && node_of(b, z) == y);
                    assert(summary(gx) == joined(summary(y), extra(a.all, y)));
                    assert(summary(gx).phones.contains(q));
                    assert(gx.phones.contains(q));
                }
            }
            assert(!touching(x1, y));
            lemma_touched_update(a.all, ta, x1, y);
            if touched(a.all, y) {
                let j0 = partner(a.all, y);
                let j1 = partner(a1.all, y);
                assert(a1.all[j1] == a.all[j1]);
                lemma_touching(a.all[j0], y);
                lemma_touching(a.all[j1], y);
                assert(touching(b.all[k], a.all[j0]) && touching(b.all[k], a.all[j1]));
            }
        }
    }
}

/// A node that took up nothing holds nothing.
pub proof fn lemma_empty_summary()
    ensures
        summary(empty_debtor()) == nothing(),
{
    broadcast use vstd::multiset::group_multiset_axioms;

    let none = empty_debtor();
    vstd::seq_lib::to_multiset_len(none.debts);
    vstd::multiset::lemma_multiset_empty_len(none.debts.to_multiset());
    assert(none.debts.to_multiset() =~= Multiset::empty());
    assert(none.companies.to_set() =~= Set::empty());
    assert(none.phones.to_set() =~= Set::empty());
}

/// A record of which a phone is known in line but none on its own side
/// makes a node of its own there, which becomes the partner of the node of
/// the other side that knows the phone, and the graphs stay in step.
#[verifier::rlimit(60)]
proof fn lemma_step_other(g: DebtorsView, a: DebtorsView, b: DebtorsView, dr: DebtRecView)
    requires
        in_step(g, a, b),
        first_match(a.index_by_phone, dr.phones) is None,
        first_match(g.index_by_phone, dr.phones) is Some,
        single_minded(g, dr.phones),
        one_to_one(inserted(a, dr).all, b.all),
        g.all.len() < usize::MAX,
        a.all.len() < usize::MAX,
    ensures
        in_step(inserted(g, dr), inserted(a, dr), b),
{
    let phones = dr.phones;
    let item = as_node(dr);
    let g1 = inserted(g, dr);
    let a1 = inserted(a, dr);
    let last = a.all.len() as int;
    lemma_first_match(g.index_by_phone, phones, 0);
    lemma_first_match(a.index_by_phone, phones, 0);
    let tg = first_match(g.index_by_phone, phones)->0 as int;
    let kg = choose|k: int|
        0 <= k < phones.len() && g.index_by_phone.contains_key(#[trigger] phones[k])
            && g.index_by_phone[phones[k]] == tg;
    let q0 = phones[kg];
    assert(!a.index_by_phone.contains_key(phones[kg]));
    assert(b.index_by_phone.contains_key(q0));
    assert forall|q: Seq<char>|
        phones.contains(q) && g.index_by_phone.contains_key(q) implies g.index_by_phone[q]
        == tg by {
        let m = choose|m: int| 0 <= m < phones.len() && phones[m] == q;
        assert(g.index_by_phone[phones[m]] == g.index_by_phone[phones[kg]]);
    }
    assert forall|q: Seq<char>| phones.contains(q) implies !a.index_by_phone.contains_key(q) by {
        let m = choose|m: int| 0 <= m < phones.len() && phones[m] == q;
        assert(!a.index_by_phone.contains_key(phones[m]));
    }
    assert(single_minded(a, phones));
    let k0 = b.index_by_phone[q0] as int;
    let y = b.all[k0];
    let gx = g.all[tg];
    let n = grown(empty_debtor(), item);
    let gx1 = grown(gx, item);
    lemma_absorbed_well_formed(g, seq![dr.company], phones, seq![dr.debt]);
    lemma_absorbed_exact(g, seq![dr.company], phones, seq![dr.debt]);
    lemma_absorbed_well_formed(a, seq![dr.company], phones, seq![dr.debt]);
    lemma_absorbed_exact(a, seq![dr.company], phones, seq![dr.debt]);
    lemma_pointed(g.index_by_phone, phones, tg as usize);
    lemma_pointed(a.index_by_phone, phones, last as usize);
    lemma_grown(empty_debtor(), item);
    lemma_grown(gx, item);
    lemma_empty_summary();
    lemma_joined(nothing(), summary(item));
    lemma_joined(summary(item), nothing());
    assert(summary(n) == summary(item));
    assert(g1.all =~= g.all.update(tg, gx1));
    assert(a1.all =~= a.all.push(n));
    assert(a1.all[last] == n);
    assert(phones.contains(q0));
    assert(y.phones.contains(q0));
    assert(shared(n, y, q0));
    assert(touching(n, y));
    lemma_touching(n, y);
    // the new node shares phones with no other node of the other side
    assert forall|k: int| 0 <= k < b.all.len() && k != k0 implies !touching(
        n,
        #[trigger] b.all[k],
    ) by {
        if touching(n, b.all[k]) {
            assert(touching(a1.all[last], b.all[k]) && touching(a1.all[last], b.all[k0]));
        }
    }
    // the node that knows the phone had no partner
    assert(!touched(a.all, y)) by {
        if touched(a.all, y) {
            let i = partner(a.all, y);
            assert(a1.all[i] == a.all[i]);
            lemma_touching(a.all[i], y);
            assert(touching(b.all[k0], a1.all[i]) && touching(b.all[k0], a1.all[last]));
        }
    }
    assert(node_of(g, q0) == gx && node_of(b, q0) == y);
    assert(summary(gx) == joined(summary(y), extra(a.all, y)));
    lemma_joined(summary(y), nothing());
    assert(summary(gx) == summary(y));
    assert(extra(b.all, n) == summary(y)) by {
        assert(touching(b.all[k0], n));
        assert(touched(b.all, n));
        let j = partner(b.all, n);
        lemma_touching(b.all[j], n);
        assert(touching(n, b.all[j]));
    }
    assert(extra(a1.all, y) == summary(n)) by {
        assert(touching(a1.all[last], y));
        assert(touched(a1.all, y));
        let j1 = partner(a1.all, y);
        lemma_touching(a1.all[j1], y);
        assert(touching(b.all[k0], a1.all[j1]) && touching(b.all[k0], a1.all[last]));
    }
    lemma_joined(summary(y), summary(n));
    assert(summary(gx1) == joined(summary(n), summary(y)));
    assert(summaries(g1.all) == paired(a1.all, b.all)) by {
        lemma_summaries_update(g.all, tg, gx1);
        lemma_joined_sum_push(a.all, b.all, n);
        lemma_lone_sum_loses(b.all, a.all, n, k0);
        lemma_add_insert(joined_sum(a1.all, b.all), lone_sum(b.all, a1.all), summary(y));
        lemma_add_insert(joined_sum(a.all, b.all), lone_sum(b.all, a.all), summary(gx1));
        assert(paired(a1.all, b.all).insert(summary(y)) == paired(a.all, b.all).insert(
            summary(gx1),
        ));
        lemma_cancel(summaries(g1.all), paired(a1.all, b.all), summary(y));
    }
    assert forall|p: Seq<char>| #[trigger]
        g1.index_by_phone.contains_key(p) <==> a1.index_by_phone.contains_key(p)
            || b.index_by_phone.contains_key(p) by {
        assert(g.index_by_phone.contains_key(p) <==> a.index_by_phone.contains_key(p)
            || b.index_by_phone.contains_key(p));
        if phones.contains(p) {
            assert(a1.index_by_phone.contains_key(p));
        }
    }
    assert forall|p: Seq<char>| #[trigger] a1.index_by_phone.contains_key(p) implies summary(
        node_of(g1, p),
    ) == joined(summary(node_of(a1, p)), extra(b.all, node_of(a1, p))) by {
        if phones.contains(p) {
            assert(node_of(g1, p) == gx1 && node_of(a1, p) == n);
        } else {
            assert(a.index_by_phone.contains_key(p));
            assert(g.index_by_phone.contains_key(p));
            let i = a.index_by_phone[p] as int;
            let u = g.index_by_phone[p] as int;
            let x2 = a.all[i];
            assert(node_of(a, p) == x2 && x2.phones.contains(p));
            if u == tg {
                assert(summary(gx) == joined(summary(x2), extra(b.all, x2)));
                assert(summary(gx).phones.contains(p));
                assert(y.phones.contains(p));
                assert(shared(a.all[i], y, p));
                assert(touching(a.all[i], y));
                assert(false);
            }
            assert(node_of(g1, p) == node_of(g, p));
            assert(node_of(a1, p) == x2);
        }
    }
    assert forall|q: Seq<char>| #[trigger] b.index_by_phone.contains_key(q) implies summary(
        node_of(g1, q),
    ) == joined(summary(node_of(b, q)), extra(a1.all, node_of(b, q))) by {
        let k = b.index_by_phone[q] as int;
        let yq = b.all[k];
        assert(g.index_by_phone.contains_key(q));
        assert(yq.phones.contains(q));
        let u = g.index_by_phone[q] as int;
        assert(summary(node_of(g, q)) == joined(summary(yq), extra(a.all, yq)));
        if u == tg {
            assert(node_of(g1, q) == gx1);
            assert(summary(gx).phones.contains(q));
            assert(y.phones.contains(q));
            assert(b.index_by_phone[q] == k0);
        } else {
            if phones.contains(q) {
                assert(false);
            }
            assert(node_of(g1, q) == node_of(g, q));
            if k == k0 {
                assert(summary(gx).phones.contains(q));
                assert(gx.phones.contains(q));
                assert(false);
            }
            assert(!touching(n, b.all[k]));
            assert forall|i: int, j: int|
                0 <= i < a.all.len() && 0 <= j < a.all.len() && #[trigger] touching(a.all[i], yq)
                    && #[trigger] touching(a.all[j], yq) implies i == j by {
                lemma_touching(a.all[i], yq);
                lemma_touching(a.all[j], yq);
                assert(touching(b.all[k], a.all[i]) && touching(b.all[k], a.all[j]));
            }
            lemma_extra_same(a.all, n, yq);
        }
    }
}

/// One record more, in line and on the side `a`, keeps the graphs in step,
/// where the record leads to one node at most in line and on its side, and
/// the two sides share phones one to one after it as before.
pub proof fn lemma_side_step(g: DebtorsView, a: DebtorsView, b: DebtorsView, dr: DebtRecView)
    requires
        in_step(g, a, b),
        single_minded(g, dr.phones),
        single_minded(a, dr.phones),
        one_to_one(inserted(a, dr).all, b.all),
        g.all.len() < usize::MAX,
        a.all.len() < usize::MAX,
    ensures
        in_step(inserted(g, dr), inserted(a, dr), b),
{
    if first_match(g.index_by_phone, dr.phones) is None {
        lemma_step_fresh(g, a, b, dr);
    } else if first_match(a.index_by_phone, dr.phones) is Some {
        lemma_step_own(g, a, b, dr);
    } else {
        lemma_step_other(g, a, b, dr);
    }
}

/// The summary of a node occurs among the summaries of the nodes.
pub proof fn lemma_summaries_of(nodes: Seq<DebtorView>, i: int)
    requires
        0 <= i < nodes.len(),
    ensures
        summaries(nodes).count(summary(nodes[i])) > 0,
    decreases nodes.len(),
{
    lemma_insert_count(summaries(nodes.drop_last()), summary(nodes.last()), summary(nodes[i]));
    if i < nodes.len() - 1 {
        assert(nodes.drop_last()[i] == nodes[i]);
        lemma_summaries_of(nodes.drop_last(), i);
    }
}

/// A summary that occurs among the summaries of the nodes is that of a node.
pub proof fn lemma_summaries_has(nodes: Seq<DebtorView>, x: Summary) -> (i: int)
    requires
        summaries(nodes).count(x) > 0,
    ensures
        0 <= i < nodes.len(),
        summary(nodes[i]) == x,
    decreases nodes.len(),
{
    if nodes.len() == 0 {
        vstd::multiset::axiom_multiset_empty(x);
        0
    } else {
        lemma_insert_count(summaries(nodes.drop_last()), summary(nodes.last()), x);
        if summary(nodes.last()) == x {
            nodes.len() - 1
        } else {
            let i = lemma_summaries_has(nodes.drop_last(), x);
            assert(nodes.drop_last()[i] == nodes[i]);
            i
        }
    }
}

/// A node taken out of the list takes its summary out.
pub proof fn lemma_summaries_remove(nodes: Seq<DebtorView>, i: int)
    requires
        0 <= i < nodes.len(),
    ensures
        summaries(nodes) == summaries(nodes.remove(i)).insert(summary(nodes[i])),
    decreases nodes.len(),
{
    let fewer = nodes.remove(i);
    if i == nodes.len() - 1 {
        assert(fewer =~= nodes.drop_last());
    } else {
        assert(fewer.drop_last() =~= nodes.drop_last().remove(i));
        assert(fewer.last() == nodes.last());
        lemma_summaries_remove(nodes.drop_last(), i);
        lemma_insert_swap(
            summaries(nodes.drop_last().remove(i)),
            summary(nodes[i]),
            summary(nodes.last()),
        );
    }
}

/// A node taken out of `a` takes its term out of the sum.
pub proof fn lemma_joined_sum_remove(a: Seq<DebtorView>, b: Seq<DebtorView>, i: int)
    requires
        0 <= i < a.len(),
    ensures
        joined_sum(a, b) == joined_sum(a.remove(i), b).insert(
            joined(summary(a[i]), extra(b, a[i])),
        ),
    decreases a.len(),
{
    let fewer = a.remove(i);
    if i == a.len() - 1 {
        assert(fewer =~= a.drop_last());
    } else {
        assert(fewer.drop_last() =~= a.drop_last().remove(i));
        assert(fewer.last() == a.last());
        lemma_joined_sum_remove(a.drop_last(), b, i);
        lemma_insert_swap(
            joined_sum(a.drop_last().remove(i), b),
            joined(summary(a[i]), extra(b, a[i])),
            joined(summary(a.last()), extra(b, a.last())),
        );
    }
}

/// Without one of its nodes, a list still shares phones one to one.
pub proof fn lemma_one_to_one_remove(xs: Seq<DebtorView>, ys: Seq<DebtorView>, at: int)
    requires
        one_to_one(xs, ys),
        0 <= at < xs.len(),
    ensures
        one_to_one(xs.remove(at), ys),
{
    let zs = xs.remove(at);
    assert forall|i: int, j: int, k: int|
        0 <= i < zs.len() && 0 <= j < ys.len() && 0 <= k < ys.len() && #[trigger] touching(
            zs[i],
            ys[j],
        ) && #[trigger] touching(zs[i], ys[k]) implies j == k by {
        let i0 = if i < at {
            i
        } else {
            i + 1
        };
        assert(zs[i] == xs[i0]);
        assert(touching(xs[i0], ys[j]) && touching(xs[i0], ys[k]));
    }
    assert forall|i: int, j: int, k: int|
        0 <= i < ys.len() && 0 <= j < zs.len() && 0 <= k < zs.len() && #[trigger] touching(
            ys[i],
            zs[j],
        ) && #[trigger] touching(ys[i], zs[k]) implies j == k by {
        let j0 = if j < at {
            j
        } else {
            j + 1
        };
        let k0 = if k < at {
            k
        } else {
            k + 1
        };
        assert(zs[j] == xs[j0] && zs[k] == xs[k0]);
        assert(touching(ys[i], xs[j0]) && touching(ys[i], xs[k0]));
    }
}

/// Two nodes with the same phones share phones with the same nodes, and
/// have the same partner.
pub proof fn lemma_extra_alike(b: Seq<DebtorView>, x: DebtorView, other: DebtorView)
    requires
        summary(x).phones == summary(other).phones,
        forall|j: int, k: int|
            0 <= j < b.len() && 0 <= k < b.len() && #[trigger] touching(b[j], x)
                && #[trigger] touching(b[k], x) ==> j == k,
    ensures
        forall|y: DebtorView| #[trigger] touching(y, x) == touching(y, other),
        touched(b, x) == touched(b, other),
        extra(b, x) == extra(b, other),
{
    assert forall|p: Seq<char>| x.phones.contains(p) == other.phones.contains(p) by {
        assert(x.phones.to_set().contains(p) == other.phones.to_set().contains(p));
        assert(x.phones.to_set().contains(p) == x.phones.contains(p));
        assert(other.phones.to_set().contains(p) == other.phones.contains(p));
    }
    assert forall|y: DebtorView| #[trigger] touching(y, x) == touching(y, other) by {
        if touching(y, x) {
            let p = choose|p: Seq<char>| shared(y, x, p);
            assert(shared(y, other, p));
        }
        if touching(y, other) {
            let p = choose|p: Seq<char>| shared(y, other, p);
            assert(shared(y, x, p));
        }
    }
    if touched(b, x) {
        let j = partner(b, x);
        assert(touching(b[j], other));
        assert(touched(b, other));
        let k = partner(b, other);
        assert(touching(b[k], x));
    }
    if touched(b, other) {
        let k = partner(b, other);
        assert(touching(b[k], x));
        assert(touched(b, x));
    }
}

/// The sum over `a` depends on what the nodes of `a` hold only, not on
/// their order.
pub proof fn lemma_joined_sum_alike(a: Seq<DebtorView>, other: Seq<DebtorView>, b: Seq<DebtorView>)
    requires
        summaries(a) == summaries(other),
        one_to_one(a, b),
        one_to_one(other, b),
    ensures
        joined_sum(a, b) == joined_sum(other, b),
        a.len() == other.len(),
    decreases a.len(),
{
    if a.len() == 0 {
        if other.len() > 0 {
            lemma_summaries_of(other, 0);
            vstd::multiset::axiom_multiset_empty(summary(other[0]));
        }
    } else {
        let x = a.last();
        let last = a.len() - 1;
        assert(x == a[last]);
        lemma_summaries_of(a, last);
        let at = lemma_summaries_has(other, summary(x));
        let fewer = other.remove(at);
        lemma_summaries_remove(other, at);
        lemma_cancel(summaries(a.drop_last()), summaries(fewer), summary(x));
        lemma_at_most_one_shorter(a, b);
        lemma_at_most_one_shorter(b, a);
        lemma_one_to_one_remove(other, b, at);
        lemma_joined_sum_alike(a.drop_last(), fewer, b);
        lemma_joined_sum_remove(other, b, at);
        assert forall|j: int, k: int|
            0 <= j < b.len() && 0 <= k < b.len() && #[trigger] touching(b[j], x)
                && #[trigger] touching(b[k], x) implies j == k by {
            lemma_touching(b[j], x);
            lemma_touching(b[k], x);
            assert(touching(a[last], b[j]) && touching(a[last], b[k]));
        }
        lemma_extra_alike(b, x, other[at]);
    }
}

/// Which nodes of `b` are without a partner depends on what the nodes of `a`
/// hold only.
pub proof fn lemma_lone_sum_alike(b: Seq<DebtorView>, a: Seq<DebtorView>, other: Seq<DebtorView>)
    requires
        summaries(a) == summaries(other),
    ensures
        lone_sum(b, a) == lone_sum(b, other),
{
    assert forall|k: int| 0 <= k < b.len() implies touched(other, #[trigger] b[k]) == touched(
        a,
        b[k],
    ) by {
        let y = b[k];
        if touched(a, y) {
            let i = partner(a, y);
            lemma_summaries_of(a, i);
            let i2 = lemma_summaries_has(other, summary(a[i]));
            let p = choose|p: Seq<char>| shared(a[i], y, p);
            assert(summary(a[i]).phones.contains(p));
            assert(summary(other[i2]).phones.contains(p));
            assert(shared(other[i2], y, p));
            assert(touching(other[i2], y));
        }
        if touched(other, y) {
            let i = partner(other, y);
            lemma_summaries_of(other, i);
            let i2 = lemma_summaries_has(a, summary(other[i]));
            let p = choose|p: Seq<char>| shared(other[i], y, p);
            assert(summary(other[i]).phones.contains(p));
            assert(summary(a[i2]).phones.contains(p));
            assert(shared(a[i2], y, p));
            assert(touching(a[i2], y));
        }
    }
    lemma_lone_sum_keep(b, a, other);
}

/// What comes of merging `b` into `a` depends on what the nodes of `a` hold
/// only, not on their order.
pub proof fn lemma_paired_alike(a: Seq<DebtorView>, other: Seq<DebtorView>, b: Seq<DebtorView>)
    requires
        summaries(a) == summaries(other),
        one_to_one(a, b),
        one_to_one(other, b),
    ensures
        paired(a, b) == paired(other, b),
{
    lemma_joined_sum_alike(a, other, b);
    lemma_lone_sum_alike(b, a, other);
}

/// The graph of the records taken in line.
pub open spec fn line(records: Seq<DebtRecView>) -> DebtorsView {
    inserted_all(empty_debtors(), records)
}

/// The share of worker `w`: the records that `who` gives to it, in their
/// order.
pub open spec fn share(records: Seq<DebtRecView>, who: Seq<int>, w: int) -> Seq<DebtRecView>
    decreases records.len(),
{
    if records.len() == 0 || who.len() == 0 {
        Seq::empty()
    } else {
        let rest = share(records.drop_last(), who.drop_last(), w);
        if who.last() == w {
            rest.push(records.last())
        } else {
            rest
        }
    }
}

/// The records that `who` gives to worker `w` or to a later worker, in
/// their order.
pub open spec fn above(records: Seq<DebtRecView>, who: Seq<int>, w: int) -> Seq<DebtRecView>
    decreases records.len(),
{
    if records.len() == 0 || who.len() == 0 {
        Seq::empty()
    } else {
        let rest = above(records.drop_last(), who.drop_last(), w);
        if who.last() >= w {
            rest.push(records.last())
        } else {
            rest
        }
    }
}

/// The records of worker `w` and those of the later workers come in turn
/// without a clash: each record leads to one node at most, among the
/// records of them all taken in line and among those of its own side, and
/// the graph of worker `w` and the graph of the later workers' records
/// share phones one to one after each record.
pub open spec fn in_turn(records: Seq<DebtRecView>, who: Seq<int>, w: int) -> bool
    decreases records.len(),
{
    if records.len() == 0 || who.len() == 0 {
        true
    } else {
        let r0 = records.drop_last();
        let w0 = who.drop_last();
        let dr = records.last();
        let all = line(above(r0, w0, w));
        let later = line(above(r0, w0, w + 1));
        let own = line(share(r0, w0, w));
        &&& in_turn(r0, w0, w)
        &&& who.last() > w ==> single_minded(all, dr.phones) && single_minded(later, dr.phones)
            && one_to_one(inserted(later, dr).all, own.all)
        &&& who.last() == w ==> single_minded(all, dr.phones) && single_minded(own, dr.phones)
            && one_to_one(later.all, inserted(own, dr).all)
    }
}

/// The graph in line has no more nodes than there are records.
pub proof fn lemma_line(records: Seq<DebtRecView>)
    requires
        records.len() <= usize::MAX,
    ensures
        well_formed(line(records)),
        line(records).all.len() <= records.len(),
{
    lemma_inserted_all_well_formed(empty_debtors(), records);
}

/// A share, and the records of a worker and the later ones, are no more
/// than there are records.
pub proof fn lemma_share_len(records: Seq<DebtRecView>, who: Seq<int>, w: int)
    ensures
        share(records, who, w).len() <= records.len(),
        above(records, who, w).len() <= records.len(),
    decreases records.len(),
{
    if records.len() > 0 && who.len() > 0 {
        lemma_share_len(records.drop_last(), who.drop_last(), w);
    }
}

/// One record more in line.
proof fn lemma_line_push(records: Seq<DebtRecView>, dr: DebtRecView)
    ensures
        line(records.push(dr)) == inserted(line(records), dr),
{
    assert(records.push(dr).drop_last() =~= records);
}

/// The records of worker `w` and of the later workers, taken in line, and
/// taken on two sides, worker `w` on one and the later workers on the
/// other, stay in step where they come in turn without a clash.
pub proof fn lemma_two_sides(records: Seq<DebtRecView>, who: Seq<int>, w: int)
    requires
        who.len() == records.len(),
        in_turn(records, who, w),
        records.len() < usize::MAX,
    ensures
        in_step(
            line(above(records, who, w)),
            line(above(records, who, w + 1)),
            line(share(records, who, w)),
        ),
    decreases records.len(),
{
    if records.len() == 0 {
        let none = Seq::<DebtorView>::empty();
        lemma_paired_empty(none);
        assert(line(above(records, who, w)) == empty_debtors());
        assert(line(above(records, who, w + 1)) == empty_debtors());
        assert(line(share(records, who, w)) == empty_debtors());
        assert(empty_debtors().all =~= none);
    } else {
        let r0 = records.drop_last();
        let w0 = who.drop_last();
        let dr = records.last();
        lemma_two_sides(r0, w0, w);
        let all = line(above(r0, w0, w));
        let later = line(above(r0, w0, w + 1));
        let own = line(share(r0, w0, w));
        lemma_share_len(r0, w0, w);
        lemma_share_len(r0, w0, w + 1);
        lemma_line(above(r0, w0, w));
        lemma_line(above(r0, w0, w + 1));
        lemma_line(share(r0, w0, w));
        if who.last() > w {
            lemma_line_push(above(r0, w0, w), dr);
            lemma_line_push(above(r0, w0, w + 1), dr);
            lemma_side_step(all, later, own, dr);
        } else if who.last() == w {
            lemma_line_push(above(r0, w0, w), dr);
            lemma_line_push(share(r0, w0, w), dr);
            lemma_in_step_swap(all, later, own);
            lemma_side_step(all, own, later, dr);
            lemma_in_step_swap(inserted(all, dr), inserted(own, dr), later);
        }
    }
}

/// The graph after the last `j` of `n` workers were joined, the last worker
/// first: the first graph taken as it is, every later one merged in.
pub open spec fn dealt(records: Seq<DebtRecView>, who: Seq<int>, n: int, j: int) -> DebtorsView
    decreases j,
{
    if j <= 0 {
        empty_debtors()
    } else {
        folded(dealt(records, who, n, j - 1), line(share(records, who, n - j)))
    }
}

/// The records are dealt out to `n` workers without a clash: for every
/// worker, its records and those of the later workers come in turn without
/// a clash, and at each join the graph joined so far and the graph of the
/// worker share phones one to one.
pub open spec fn well_dealt(records: Seq<DebtRecView>, who: Seq<int>, n: int) -> bool {
    &&& who.len() == records.len()
    &&& forall|i: int| 0 <= i < who.len() ==> 0 <= #[trigger] who[i] < n
    &&& forall|w: int| 0 <= w < n ==> #[trigger] in_turn(records, who, w)
    &&& forall|j: int|
        0 <= j < n ==> one_to_one(
            (#[trigger] dealt(records, who, n, j)).all,
            line(share(records, who, n - j - 1)).all,
        )
}

/// No record goes to a worker beyond the last.
proof fn lemma_above_none(records: Seq<DebtRecView>, who: Seq<int>, n: int)
    requires
        who.len() == records.len(),
        forall|i: int| 0 <= i < who.len() ==> #[trigger] who[i] < n,
    ensures
        above(records, who, n) == Seq::<DebtRecView>::empty(),
    decreases records.len(),
{
    if records.len() > 0 {
        assert(who.last() == who[who.len() - 1]);
        assert forall|i: int| 0 <= i < who.drop_last().len() implies #[trigger] who.drop_last()[i]
            < n by {
            assert(who.drop_last()[i] == who[i]);
        }
        lemma_above_none(records.drop_last(), who.drop_last(), n);
    }
}

/// Every record goes to the first worker or a later one.
proof fn lemma_above_all(records: Seq<DebtRecView>, who: Seq<int>)
    requires
        who.len() == records.len(),
        forall|i: int| 0 <= i < who.len() ==> 0 <= #[trigger] who[i],
    ensures
        above(records, who, 0) == records,
    decreases records.len(),
{
    if records.len() == 0 {
        assert(records =~= Seq::<DebtRecView>::empty());
    } else {
        assert(who.last() == who[who.len() - 1]);
        assert forall|i: int| 0 <= i < who.drop_last().len() implies 0
            <= #[trigger] who.drop_last()[i] by {
            assert(who.drop_last()[i] == who[i]);
        }
        lemma_above_all(records.drop_last(), who.drop_last());
        assert(records.drop_last().push(records.last()) =~= records);
    }
}

/// After the last `j` workers were joined, the graph holds, node by node,
/// what the graph of their records taken in line holds.
pub proof fn lemma_dealt(records: Seq<DebtRecView>, who: Seq<int>, n: int, j: int)
    requires
        well_dealt(records, who, n),
        0 <= j <= n,
        2 * records.len() < usize::MAX,
    ensures
        exact_graph(dealt(records, who, n, j)),
        summaries(dealt(records, who, n, j).all) == summaries(
            line(above(records, who, n - j)).all,
        ),
        dealt(records, who, n, j).all.len() == line(above(records, who, n - j)).all.len(),
    decreases j,
{
    if j == 0 {
        lemma_above_none(records, who, n);
    } else {
        let w = n - j;
        lemma_dealt(records, who, n, j - 1);
        let total = dealt(records, who, n, j - 1);
        let part = line(share(records, who, w));
        let later = line(above(records, who, w + 1));
        let all = line(above(records, who, w));
        assert(in_turn(records, who, w));
        lemma_two_sides(records, who, w);
        assert(one_to_one(dealt(records, who, n, j - 1).all, line(share(records, who, n - (j - 1) - 1)).all));
        lemma_share_len(records, who, w);
        lemma_share_len(records, who, w + 1);
        lemma_line(share(records, who, w));
        lemma_line(above(records, who, w + 1));
        lemma_line(above(records, who, w));
        if total.all.len() == 0 {
            assert(later.all =~= Seq::<DebtorView>::empty());
            lemma_paired_empty(part.all);
            lemma_paired(later.all, part.all);
        } else {
            lemma_merged_paired(total, part, part.all.len() as int);
            assert(part.all.take(part.all.len() as int) =~= part.all);
            lemma_paired_alike(total.all, later.all, part.all);
        }
        lemma_len_of_summaries(dealt(records, who, n, j).all, all.all);
    }
}

/// Lists of nodes that hold the same, node by node, are as long.
proof fn lemma_len_of_summaries(a: Seq<DebtorView>, other: Seq<DebtorView>)
    requires
        summaries(a) == summaries(other),
    ensures
        a.len() == other.len(),
    decreases a.len(),
{
    if a.len() == 0 {
        if other.len() > 0 {
            lemma_summaries_of(other, 0);
            vstd::multiset::axiom_multiset_empty(summary(other[0]));
        }
    } else {
        let last = a.len() - 1;
        lemma_summaries_of(a, last);
        let at = lemma_summaries_has(other, summary(a[last]));
        lemma_summaries_remove(other, at);
        assert(a.last() == a[last]);
        lemma_cancel(summaries(a.drop_last()), summaries(other.remove(at)), summary(a[last]));
        lemma_len_of_summaries(a.drop_last(), other.remove(at));
    }
}

/// Records dealt out to workers without a clash give the nodes of the run
/// in line: the graph that the workers' graphs are merged into, the last
/// worker first, holds node by node the same companies, phones and debts as
/// the graph of the records taken in line.
pub proof fn lemma_dealt_as_in_line(records: Seq<DebtRecView>, who: Seq<int>, n: int)
    requires
        well_dealt(records, who, n),
        0 <= n,
        2 * records.len() < usize::MAX,
    ensures
        summaries(dealt(records, who, n, n).all) == summaries(line(records).all),
{
    lemma_dealt(records, who, n, n);
    lemma_above_all(records, who);
}

} // verus!
