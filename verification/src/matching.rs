//! Merging partial graphs that share phones one to one.
//!
//! Two partial graphs may know the same phones. Where every node of each
//! shares phones with one node of the other at most, the two can be taken in
//! either order: the nodes of the result hold the same companies, the same
//! phones and the same debts, whichever came first.

use crate::debtors::{
    absorbed, empty_debtors, first_match, first_match_from, index_exact, lemma_absorbed_exact,
    lemma_absorbed_well_formed, single_minded,
    lemma_first_match, lemma_pointed, lemma_with_items, merged, well_formed, with_items,
    DebtorView, DebtorsView,
};
use crate::extract::Debt;
use crate::laws::{folded, lemma_with_items_fresh};
use vstd::multiset::Multiset;
use vstd::prelude::*;

verus! {

/// What a node holds, without the order in which it came.
pub struct Summary {
    /// The companies.
    pub companies: Set<Seq<char>>,
    /// The phones.
    pub phones: Set<Seq<char>>,
    /// The amounts, each as often as it was taken up.
    pub debts: Multiset<Debt>,
}

/// What the node `n` holds.
pub open spec fn summary(n: DebtorView) -> Summary {
    Summary {
        companies: n.companies.to_set(),
        phones: n.phones.to_set(),
        debts: n.debts.to_multiset(),
    }
}

/// Holding nothing.
pub open spec fn nothing() -> Summary {
    Summary { companies: Set::empty(), phones: Set::empty(), debts: Multiset::empty() }
}

/// What two nodes hold together.
pub open spec fn joined(x: Summary, y: Summary) -> Summary {
    Summary {
        companies: x.companies.union(y.companies),
        phones: x.phones.union(y.phones),
        debts: x.debts.add(y.debts),
    }
}

/// What the nodes of a list hold, node by node, without their order.
pub open spec fn summaries(nodes: Seq<DebtorView>) -> Multiset<Summary>
    decreases nodes.len(),
{
    if nodes.len() == 0 {
        Multiset::empty()
    } else {
        summaries(nodes.drop_last()).insert(summary(nodes.last()))
    }
}

/// Joining is the same from either side, and joining with nothing changes
/// nothing.
pub proof fn lemma_joined(x: Summary, y: Summary)
    ensures
        joined(x, y) == joined(y, x),
        joined(x, nothing()) == x,
{
    assert(x.companies.union(y.companies) =~= y.companies.union(x.companies));
    assert(x.phones.union(y.phones) =~= y.phones.union(x.phones));
    assert(x.debts.add(y.debts) =~= y.debts.add(x.debts));
    assert(x.companies.union(Set::empty()) =~= x.companies);
    assert(x.phones.union(Set::empty()) =~= x.phones);
    assert(x.debts.add(Multiset::empty()) =~= x.debts);
}

/// A node more in the list is a summary more.
pub proof fn lemma_summaries_push(nodes: Seq<DebtorView>, n: DebtorView)
    ensures
        summaries(nodes.push(n)) == summaries(nodes).insert(summary(n)),
{
    assert(nodes.push(n).drop_last() =~= nodes);
}

/// How often a summary occurs after one was put in.
pub proof fn lemma_insert_count(m: Multiset<Summary>, x: Summary, v: Summary)
    ensures
        m.insert(x).count(v) == m.count(v) + if v == x {
            1nat
        } else {
            0nat
        },
{
    vstd::multiset::axiom_multiset_add(m, Multiset::singleton(x), v);
    vstd::multiset::axiom_multiset_singleton(x);
    vstd::multiset::axiom_multiset_singleton_different(x, v);
}

/// Two summaries can be put in in either order.
pub proof fn lemma_insert_swap(m: Multiset<Summary>, x: Summary, y: Summary)
    ensures
        m.insert(x).insert(y) == m.insert(y).insert(x),
{
    assert forall|v: Summary| m.insert(x).insert(y).count(v) == m.insert(y).insert(x).count(v) by {
        lemma_insert_count(m, x, v);
        lemma_insert_count(m.insert(x), y, v);
        lemma_insert_count(m, y, v);
        lemma_insert_count(m.insert(y), x, v);
    }
    assert(m.insert(x).insert(y) =~= m.insert(y).insert(x));
}

/// A summary that is cancelled on both sides leaves equal summaries.
pub proof fn lemma_cancel(m: Multiset<Summary>, n: Multiset<Summary>, x: Summary)
    requires
        m.insert(x) == n.insert(x),
    ensures
        m == n,
{
    assert forall|v: Summary| m.count(v) == n.count(v) by {
        lemma_insert_count(m, x, v);
        lemma_insert_count(n, x, v);
    }
    assert(m =~= n);
}

/// A node that changes takes its old summary out and puts its new one in.
pub proof fn lemma_summaries_update(nodes: Seq<DebtorView>, at: int, n: DebtorView)
    requires
        0 <= at < nodes.len(),
    ensures
        summaries(nodes.update(at, n)).insert(summary(nodes[at])) == summaries(nodes).insert(
            summary(n),
        ),
    decreases nodes.len(),
{
    let after = nodes.update(at, n);
    let rest = summaries(nodes.drop_last());
    if at == nodes.len() - 1 {
        assert(after.drop_last() =~= nodes.drop_last());
        lemma_insert_swap(rest, summary(n), summary(nodes[at]));
    } else {
        assert(after.drop_last() =~= nodes.drop_last().update(at, n));
        lemma_summaries_update(nodes.drop_last(), at, n);
        let changed = summaries(nodes.drop_last().update(at, n));
        lemma_insert_swap(changed, summary(nodes.last()), summary(nodes[at]));
        lemma_insert_swap(rest, summary(nodes.last()), summary(n));
    }
}

/// The phone `p` is a phone of both nodes.
pub open spec fn shared(x: DebtorView, y: DebtorView, p: Seq<char>) -> bool {
    x.phones.contains(p) && y.phones.contains(p)
}

/// The two nodes share a phone.
pub open spec fn touching(x: DebtorView, y: DebtorView) -> bool {
    exists|p: Seq<char>| shared(x, y, p)
}

/// Some node of the list shares a phone with `x`.
pub open spec fn touched(nodes: Seq<DebtorView>, x: DebtorView) -> bool {
    exists|j: int| 0 <= j < nodes.len() && touching(#[trigger] nodes[j], x)
}

/// The place of a node of the list that shares a phone with `x`.
pub open spec fn partner(nodes: Seq<DebtorView>, x: DebtorView) -> int {
    choose|j: int| 0 <= j < nodes.len() && touching(#[trigger] nodes[j], x)
}

/// What `x` gets from the list: what its partner holds, or nothing.
pub open spec fn extra(nodes: Seq<DebtorView>, x: DebtorView) -> Summary {
    if touched(nodes, x) {
        summary(nodes[partner(nodes, x)])
    } else {
        nothing()
    }
}

/// Every node of `xs` shares phones with one node of `ys` at most.
pub open spec fn at_most_one(xs: Seq<DebtorView>, ys: Seq<DebtorView>) -> bool {
    forall|i: int, j: int, k: int|
        0 <= i < xs.len() && 0 <= j < ys.len() && 0 <= k < ys.len() && #[trigger] touching(
            xs[i],
            ys[j],
        ) && #[trigger] touching(xs[i], ys[k]) ==> j == k
}

/// The nodes of the two lists share phones one to one.
pub open spec fn one_to_one(xs: Seq<DebtorView>, ys: Seq<DebtorView>) -> bool {
    at_most_one(xs, ys) && at_most_one(ys, xs)
}

/// What the nodes of `a` hold, each together with its partner in `b`.
pub open spec fn joined_sum(a: Seq<DebtorView>, b: Seq<DebtorView>) -> Multiset<Summary>
    decreases a.len(),
{
    if a.len() == 0 {
        Multiset::empty()
    } else {
        joined_sum(a.drop_last(), b).insert(joined(summary(a.last()), extra(b, a.last())))
    }
}

/// What those nodes of `b` hold that share no phone with a node of `a`.
pub open spec fn lone_sum(b: Seq<DebtorView>, a: Seq<DebtorView>) -> Multiset<Summary>
    decreases b.len(),
{
    if b.len() == 0 {
        Multiset::empty()
    } else if touched(a, b.last()) {
        lone_sum(b.drop_last(), a)
    } else {
        lone_sum(b.drop_last(), a).insert(summary(b.last()))
    }
}

/// What comes of merging `b` into `a`: every node of `a` with its partner,
/// and the nodes of `b` that have none.
pub open spec fn paired(a: Seq<DebtorView>, b: Seq<DebtorView>) -> Multiset<Summary> {
    joined_sum(a, b).add(lone_sum(b, a))
}

/// Sharing a phone is mutual.
pub proof fn lemma_touching(x: DebtorView, y: DebtorView)
    ensures
        touching(x, y) == touching(y, x),
{
    if touching(x, y) {
        let p = choose|p: Seq<char>| shared(x, y, p);
        assert(shared(y, x, p));
    }
    if touching(y, x) {
        let p = choose|p: Seq<char>| shared(y, x, p);
        assert(shared(x, y, p));
    }
}

/// A node more in `b` that shares no phone with `x` gives `x` nothing more.
pub proof fn lemma_extra_same(b: Seq<DebtorView>, y: DebtorView, x: DebtorView)
    requires
        !touching(y, x),
        forall|j: int, k: int|
            0 <= j < b.len() && 0 <= k < b.len() && #[trigger] touching(b[j], x)
                && #[trigger] touching(b[k], x) ==> j == k,
    ensures
        touched(b.push(y), x) == touched(b, x),
        extra(b.push(y), x) == extra(b, x),
{
    let c = b.push(y);
    if touched(c, x) {
        let j = partner(c, x);
        assert(touching(c[j], x));
        assert(j < b.len());
        assert(c[j] == b[j]);
        assert(touching(b[j], x));
        assert(touched(b, x));
        let k = partner(b, x);
        assert(touching(b[k], x));
        assert(j == k);
    }
    if touched(b, x) {
        let k = partner(b, x);
        assert(c[k] == b[k]);
        assert(touching(c[k], x));
        assert(touched(c, x));
    }
}

/// Every node of `xs` shares phones with one node of `ys` at most; so it is
/// for the lists without their last nodes.
pub proof fn lemma_at_most_one_shorter(xs: Seq<DebtorView>, ys: Seq<DebtorView>)
    requires
        at_most_one(xs, ys),
    ensures
        xs.len() > 0 ==> at_most_one(xs.drop_last(), ys),
        ys.len() > 0 ==> at_most_one(xs, ys.drop_last()),
{
    if xs.len() > 0 {
        let zs = xs.drop_last();
        assert forall|i: int, j: int, k: int|
            0 <= i < zs.len() && 0 <= j < ys.len() && 0 <= k < ys.len() && #[trigger] touching(
                zs[i],
                ys[j],
            ) && #[trigger] touching(zs[i], ys[k]) implies j == k by {
            assert(zs[i] == xs[i]);
            assert(touching(xs[i], ys[j]) && touching(xs[i], ys[k]));
        }
    }
    if ys.len() > 0 {
        let zs = ys.drop_last();
        assert forall|i: int, j: int, k: int|
            0 <= i < xs.len() && 0 <= j < zs.len() && 0 <= k < zs.len() && #[trigger] touching(
                xs[i],
                zs[j],
            ) && #[trigger] touching(xs[i], zs[k]) implies j == k by {
            assert(zs[j] == ys[j] && zs[k] == ys[k]);
            assert(touching(xs[i], ys[j]) && touching(xs[i], ys[k]));
        }
    }
}

/// A node more in `b` that shares no phone with a node of `a` leaves the
/// nodes of `a` with the partners they had.
pub proof fn lemma_joined_sum_same(a: Seq<DebtorView>, b: Seq<DebtorView>, y: DebtorView)
    requires
        at_most_one(a, b),
        forall|i: int| 0 <= i < a.len() ==> !touching(y, #[trigger] a[i]),
    ensures
        joined_sum(a, b.push(y)) == joined_sum(a, b),
    decreases a.len(),
{
    if a.len() > 0 {
        lemma_at_most_one_shorter(a, b);
        let x = a.last();
        assert(x == a[a.len() - 1]);
        assert forall|i: int| 0 <= i < a.drop_last().len() implies !touching(
            y,
            #[trigger] a.drop_last()[i],
        ) by {
            assert(a.drop_last()[i] == a[i]);
        }
        lemma_joined_sum_same(a.drop_last(), b, y);
        assert forall|j: int, k: int|
            0 <= j < b.len() && 0 <= k < b.len() && #[trigger] touching(b[j], x)
                && #[trigger] touching(b[k], x) implies j == k by {
            lemma_touching(b[j], x);
            lemma_touching(b[k], x);
            assert(touching(a[a.len() - 1], b[j]) && touching(a[a.len() - 1], b[k]));
        }
        lemma_extra_same(b, y, x);
    }
}

/// A node more in `b` that shares a phone with the node `a[t]`, and with no
/// other node of `a`, becomes the partner of `a[t]`, which had none.
pub proof fn lemma_joined_sum_gains(a: Seq<DebtorView>, b: Seq<DebtorView>, y: DebtorView, t: int)
    requires
        0 <= t < a.len(),
        touching(a[t], y),
        at_most_one(a, b.push(y)),
        at_most_one(b.push(y), a),
    ensures
        joined_sum(a, b.push(y)).insert(summary(a[t])) == joined_sum(a, b).insert(
            joined(summary(a[t]), summary(y)),
        ),
        !touched(b, a[t]),
    decreases a.len(),
{
    let c = b.push(y);
    let n = a.len() - 1;
    let x = a.last();
    assert(x == a[n]);
    assert(c.drop_last() =~= b);
    lemma_at_most_one_shorter(a, c);
    lemma_at_most_one_shorter(c, a);
    assert(c[b.len() as int] == y);
    // no other node of `a` shares a phone with `y`
    assert forall|i: int| 0 <= i < a.len() && i != t implies !touching(y, #[trigger] a[i]) by {
        if touching(y, a[i]) {
            lemma_touching(y, a[t]);
            assert(touching(c[b.len() as int], a[i]) && touching(c[b.len() as int], a[t]));
        }
    }
    // `a[t]` shares no phone with a node of `b`
    assert(!touched(b, a[t])) by {
        if touched(b, a[t]) {
            let j = partner(b, a[t]);
            lemma_touching(b[j], a[t]);
            assert(c[j] == b[j]);
            assert(touching(a[t], c[j]) && touching(a[t], c[b.len() as int]));
        }
    }
    if t == n {
        assert forall|i: int| 0 <= i < a.drop_last().len() implies !touching(
            y,
            #[trigger] a.drop_last()[i],
        ) by {
            assert(a.drop_last()[i] == a[i]);
        }
        lemma_joined_sum_same(a.drop_last(), b, y);
        // the partner of `a[t]` in `c` is `y`
        lemma_touching(y, a[t]);
        assert(touching(c[b.len() as int], x));
        assert(touched(c, x));
        let j = partner(c, x);
        assert(touching(c[j], x));
        lemma_touching(c[j], x);
        assert(touching(a[n], c[j]) && touching(a[n], c[b.len() as int]));
        assert(j == b.len());
        assert(extra(c, x) == summary(y));
        assert(extra(b, x) == nothing());
        lemma_joined(summary(x), nothing());
        lemma_insert_swap(
            joined_sum(a.drop_last(), b),
            joined(summary(x), summary(y)),
            summary(x),
        );
    } else {
        assert(a.drop_last()[t] == a[t]);
        lemma_joined_sum_gains(a.drop_last(), b, y, t);
        assert(!touching(y, x));
        assert forall|j: int, k: int|
            0 <= j < b.len() && 0 <= k < b.len() && #[trigger] touching(b[j], x)
                && #[trigger] touching(b[k], x) implies j == k by {
            lemma_touching(b[j], x);
            lemma_touching(b[k], x);
            assert(c[j] == b[j] && c[k] == b[k]);
            assert(touching(a[n], c[j]) && touching(a[n], c[k]));
        }
        lemma_extra_same(b, y, x);
        let term = joined(summary(x), extra(b, x));
        lemma_insert_swap(joined_sum(a.drop_last(), c), term, summary(a[t]));
        lemma_insert_swap(joined_sum(a.drop_last(), b), term, joined(summary(a[t]), summary(y)));
    }
}

/// A node more in `b` that shares no phone with a node of `a` leaves the
/// same nodes of `a` without a partner.
pub proof fn lemma_lone_sum_same(a: Seq<DebtorView>, b: Seq<DebtorView>, y: DebtorView)
    requires
        forall|i: int| 0 <= i < a.len() ==> !touching(y, #[trigger] a[i]),
    ensures
        lone_sum(a, b.push(y)) == lone_sum(a, b),
    decreases a.len(),
{
    if a.len() > 0 {
        let c = b.push(y);
        let x = a.last();
        assert(x == a[a.len() - 1]);
        assert forall|i: int| 0 <= i < a.drop_last().len() implies !touching(
            y,
            #[trigger] a.drop_last()[i],
        ) by {
            assert(a.drop_last()[i] == a[i]);
        }
        lemma_lone_sum_same(a.drop_last(), b, y);
        if touched(c, x) {
            let j = choose|j: int| 0 <= j < c.len() && touching(#[trigger] c[j], x);
            assert(j < b.len());
            assert(c[j] == b[j]);
            assert(touching(b[j], x));
        }
        if touched(b, x) {
            let j = choose|j: int| 0 <= j < b.len() && touching(#[trigger] b[j], x);
            assert(c[j] == b[j]);
            assert(touching(c[j], x));
        }
    }
}

/// A node more in `b` that shares a phone with the node `a[t]`, and with no
/// other node of `a`, takes `a[t]` out of the nodes without a partner.
pub proof fn lemma_lone_sum_loses(a: Seq<DebtorView>, b: Seq<DebtorView>, y: DebtorView, t: int)
    requires
        0 <= t < a.len(),
        touching(a[t], y),
        !touched(b, a[t]),
        forall|i: int| 0 <= i < a.len() && i != t ==> !touching(y, #[trigger] a[i]),
    ensures
        lone_sum(a, b.push(y)).insert(summary(a[t])) == lone_sum(a, b),
    decreases a.len(),
{
    let c = b.push(y);
    let n = a.len() - 1;
    let x = a.last();
    assert(x == a[n]);
    if t == n {
        assert forall|i: int| 0 <= i < a.drop_last().len() implies !touching(
            y,
            #[trigger] a.drop_last()[i],
        ) by {
            assert(a.drop_last()[i] == a[i]);
        }
        lemma_lone_sum_same(a.drop_last(), b, y);
        lemma_touching(y, x);
        assert(touching(c[b.len() as int], x));
        assert(touched(c, x));
    } else {
        assert(a.drop_last()[t] == a[t]);
        assert forall|i: int| 0 <= i < a.drop_last().len() && i != t implies !touching(
            y,
            #[trigger] a.drop_last()[i],
        ) by {
            assert(a.drop_last()[i] == a[i]);
        }
        lemma_lone_sum_loses(a.drop_last(), b, y, t);
        assert(!touching(y, x));
        if touched(c, x) {
            let j = choose|j: int| 0 <= j < c.len() && touching(#[trigger] c[j], x);
            assert(j < b.len());
            assert(c[j] == b[j]);
            assert(touching(b[j], x));
        }
        if touched(b, x) {
            let j = choose|j: int| 0 <= j < b.len() && touching(#[trigger] b[j], x);
            assert(c[j] == b[j]);
            assert(touching(c[j], x));
        }
        if !touched(b, x) {
            lemma_insert_swap(lone_sum(a.drop_last(), c), summary(x), summary(a[t]));
        }
    }
}

/// How often a summary occurs among what two lists hold together.
pub proof fn lemma_add_insert(m: Multiset<Summary>, n: Multiset<Summary>, x: Summary)
    ensures
        m.insert(x).add(n) == m.add(n).insert(x),
        m.add(n.insert(x)) == m.add(n).insert(x),
{
    assert forall|v: Summary|
        m.insert(x).add(n).count(v) == m.add(n).insert(x).count(v) && m.add(n.insert(x)).count(v)
            == m.add(n).insert(x).count(v) by {
        lemma_insert_count(m, x, v);
        lemma_insert_count(n, x, v);
        lemma_insert_count(m.add(n), x, v);
        vstd::multiset::axiom_multiset_add(m.insert(x), n, v);
        vstd::multiset::axiom_multiset_add(m, n.insert(x), v);
        vstd::multiset::axiom_multiset_add(m, n, v);
    }
    assert(m.insert(x).add(n) =~= m.add(n).insert(x));
    assert(m.add(n.insert(x)) =~= m.add(n).insert(x));
}

/// Merged one way or the other, lists of nodes that share phones one to one
/// come to hold the same: each pair of partners together, every other node
/// alone.
pub proof fn lemma_paired(a: Seq<DebtorView>, b: Seq<DebtorView>)
    requires
        one_to_one(a, b),
    ensures
        paired(a, b) == paired(b, a),
    decreases b.len(),
{
    if b.len() == 0 {
        assert(b =~= Seq::<DebtorView>::empty());
        lemma_paired_empty(a);
    } else {
        let b0 = b.drop_last();
        let y = b.last();
        assert(b0.push(y) =~= b);
        lemma_at_most_one_shorter(a, b);
        lemma_at_most_one_shorter(b, a);
        lemma_paired(a, b0);
        if touched(a, y) {
            let t = partner(a, y);
            assert(touching(a[t], y));
            lemma_touching(a[t], y);
            lemma_joined_sum_gains(a, b0, y, t);
            assert forall|i: int| 0 <= i < a.len() && i != t implies !touching(
                y,
                #[trigger] a[i],
            ) by {
                if touching(y, a[i]) {
                    assert(b[b.len() - 1] == y);
                    assert(touching(b[b.len() - 1], a[i]) && touching(b[b.len() - 1], a[t]));
                }
            }
            lemma_lone_sum_loses(a, b0, y, t);
            let pair = joined(summary(a[t]), summary(y));
            lemma_joined(summary(a[t]), summary(y));
            assert(extra(a, y) == summary(a[t]));
            // both sides, with what `a[t]` holds put in once more
            lemma_add_insert(joined_sum(a, b), lone_sum(b, a), summary(a[t]));
            lemma_add_insert(joined_sum(a, b0), lone_sum(b0, a), pair);
            lemma_add_insert(joined_sum(b0, a), lone_sum(a, b), pair);
            lemma_add_insert(joined_sum(b, a), lone_sum(a, b), summary(a[t]));
            lemma_add_insert(joined_sum(b0, a), lone_sum(a, b0), pair);
            assert(paired(a, b).insert(summary(a[t])) == paired(a, b0).insert(pair));
            assert(paired(b, a).insert(summary(a[t])) == paired(b0, a).insert(pair)) by {
                lemma_add_insert(joined_sum(b, a), lone_sum(a, b), summary(a[t]));
            }
            lemma_cancel(paired(a, b), paired(b, a), summary(a[t]));
        } else {
            assert forall|i: int| 0 <= i < a.len() implies !touching(y, #[trigger] a[i]) by {
                lemma_touching(y, a[i]);
            }
            lemma_joined_sum_same(a, b0, y);
            lemma_lone_sum_same(a, b0, y);
            lemma_joined(summary(y), nothing());
            lemma_add_insert(joined_sum(a, b0), lone_sum(b0, a), summary(y));
            lemma_add_insert(joined_sum(b0, a), lone_sum(a, b0), summary(y));
            assert(extra(a, y) == nothing());
            assert(joined_sum(b, a) == joined_sum(b0, a).insert(summary(y)));
            assert(lone_sum(b, a) == lone_sum(b0, a).insert(summary(y)));
            assert(paired(a, b) == paired(a, b0).insert(summary(y)));
            assert(paired(b, a) == paired(b0, a).insert(summary(y)));
        }
    }
}

/// Merged with no nodes, a list of nodes holds what it holds.
pub proof fn lemma_paired_empty(a: Seq<DebtorView>)
    ensures
        paired(a, Seq::empty()) == paired(Seq::empty(), a),
        paired(a, Seq::empty()) == summaries(a),
    decreases a.len(),
{
    let none = Seq::<DebtorView>::empty();
    if a.len() == 0 {
        assert(Multiset::<Summary>::empty().add(Multiset::empty()) =~= Multiset::<
            Summary,
        >::empty());
    } else {
        lemma_paired_empty(a.drop_last());
        let x = a.last();
        assert(!touched(none, x));
        lemma_joined(summary(x), nothing());
        lemma_add_insert(joined_sum(a.drop_last(), none), lone_sum(none, a), summary(x));
        lemma_add_insert(joined_sum(none, a), lone_sum(a.drop_last(), none), summary(x));
        assert(lone_sum(none, a) == lone_sum(none, a.drop_last()));
        assert(joined_sum(none, a) == joined_sum(none, a.drop_last()));
    }
}

/// Every node of `xs` shares phones with one node of `ys` at most; so it is
/// for the first nodes of `ys`.
pub proof fn lemma_at_most_one_prefix(xs: Seq<DebtorView>, ys: Seq<DebtorView>, k: int)
    requires
        one_to_one(xs, ys),
        0 <= k <= ys.len(),
    ensures
        one_to_one(xs, ys.take(k)),
{
    let zs = ys.take(k);
    assert forall|i: int, j: int, m: int|
        0 <= i < xs.len() && 0 <= j < zs.len() && 0 <= m < zs.len() && #[trigger] touching(
            xs[i],
            zs[j],
        ) && #[trigger] touching(xs[i], zs[m]) implies j == m by {
        assert(zs[j] == ys[j] && zs[m] == ys[m]);
        assert(touching(xs[i], ys[j]) && touching(xs[i], ys[m]));
    }
    assert forall|i: int, j: int, m: int|
        0 <= i < zs.len() && 0 <= j < xs.len() && 0 <= m < xs.len() && #[trigger] touching(
            zs[i],
            xs[j],
        ) && #[trigger] touching(zs[i], xs[m]) implies j == m by {
        assert(zs[i] == ys[i]);
        assert(touching(ys[i], xs[j]) && touching(ys[i], xs[m]));
    }
}

/// Two indexes that say the same of every phone of a list give the same
/// first match.
pub proof fn lemma_first_match_agree(
    one: Map<Seq<char>, usize>,
    other: Map<Seq<char>, usize>,
    phones: Seq<Seq<char>>,
    from: int,
)
    requires
        0 <= from <= phones.len(),
        forall|j: int|
            0 <= j < phones.len() ==> one.contains_key(#[trigger] phones[j]) == other.contains_key(
                phones[j],
            ),
        forall|j: int|
            0 <= j < phones.len() && one.contains_key(#[trigger] phones[j]) ==> one[phones[j]]
                == other[phones[j]],
    ensures
        first_match_from(one, phones, from) == first_match_from(other, phones, from),
    decreases phones.len() - from,
{
    if from < phones.len() {
        lemma_first_match_agree(one, other, phones, from + 1);
    }
}

/// A node that took up what another held holds what the two held together.
pub proof fn lemma_summary_grown(x: DebtorView, y: DebtorView)
    ensures
        summary(
            DebtorView {
                companies: with_items(x.companies, y.companies),
                phones: with_items(x.phones, y.phones),
                debts: x.debts + y.debts,
            },
        ) == joined(summary(x), summary(y)),
{
    lemma_with_items(x.companies, y.companies);
    lemma_with_items(x.phones, y.phones);
    vstd::seq_lib::lemma_multiset_commutative(x.debts, y.debts);
    assert(with_items(x.companies, y.companies).to_set() =~= x.companies.to_set().union(
        y.companies.to_set(),
    ));
    assert(with_items(x.phones, y.phones).to_set() =~= x.phones.to_set().union(y.phones.to_set()));
}

/// What the merge of the first `k` nodes of `b` into `a` comes to, where the
/// nodes of the two share phones one to one: the nodes of `a` stand where
/// they stood, each with its partner taken up, and the index says of the
/// phones of `a` what it said.
pub proof fn lemma_merged_paired(a: DebtorsView, b: DebtorsView, k: int)
    requires
        well_formed(a),
        well_formed(b),
        index_exact(a),
        index_exact(b),
        one_to_one(a.all, b.all),
        0 <= k <= b.all.len(),
        a.all.len() + b.all.len() <= usize::MAX,
    ensures
        well_formed(merged(a, b.all.take(k))),
        index_exact(merged(a, b.all.take(k))),
        a.all.len() <= merged(a, b.all.take(k)).all.len() <= a.all.len() + k,
        forall|p: Seq<char>| #[trigger]
            merged(a, b.all.take(k)).index_by_phone.contains_key(p) <==> a.index_by_phone.contains_key(
                p,
            ) || (b.index_by_phone.contains_key(p) && b.index_by_phone[p] < k),
        forall|p: Seq<char>|
            a.index_by_phone.contains_key(p) ==> #[trigger] merged(
                a,
                b.all.take(k),
            ).index_by_phone[p] == a.index_by_phone[p],
        forall|i: int|
            0 <= i < a.all.len() && !touched(b.all.take(k), #[trigger] a.all[i]) ==> merged(
                a,
                b.all.take(k),
            ).all[i] == a.all[i],
        summaries(merged(a, b.all.take(k)).all) == paired(a.all, b.all.take(k)),
    decreases k,
{
    if k == 0 {
        assert(b.all.take(0) =~= Seq::<DebtorView>::empty());
        lemma_paired_empty(a.all);
    } else {
        lemma_merged_paired(a, b, k - 1);
        let b0 = b.all.take(k - 1);
        let b1 = b.all.take(k);
        let y = b.all[k - 1];
        assert(b1.drop_last() =~= b0);
        assert(b1.last() == y);
        assert(b0.push(y) =~= b1);
        let before = merged(a, b0);
        let after = merged(a, b1);
        assert(after == absorbed(before, y.companies, y.phones, y.debts));
        lemma_at_most_one_prefix(a.all, b.all, k);
        lemma_at_most_one_prefix(a.all, b.all, k - 1);
        lemma_absorbed_well_formed(before, y.companies, y.phones, y.debts);
        // what the index knew of the phones of `y` is what the index of `a` knows
        assert forall|j: int| 0 <= j < y.phones.len() implies before.index_by_phone.contains_key(
            #[trigger] y.phones[j],
        ) == a.index_by_phone.contains_key(y.phones[j]) by {
            assert(b.all[k - 1].phones.contains(y.phones[j]));
        }
        lemma_first_match_agree(before.index_by_phone, a.index_by_phone, y.phones, 0);
        lemma_first_match(a.index_by_phone, y.phones, 0);
        // the node leads to one node at most
        assert(single_minded(before, y.phones)) by {
            assert forall|i: int, j: int|
                0 <= i < y.phones.len() && 0 <= j < y.phones.len()
                    && before.index_by_phone.contains_key(#[trigger] y.phones[i])
                    && before.index_by_phone.contains_key(
                    #[trigger] y.phones[j],
                ) implies before.index_by_phone[y.phones[i]] == before.index_by_phone[y.phones[j]] by {
                let pi = y.phones[i];
                let pj = y.phones[j];
                let ui = a.index_by_phone[pi] as int;
                let uj = a.index_by_phone[pj] as int;
                assert(a.index_by_phone.contains_key(pi) && a.index_by_phone.contains_key(pj));
                assert(a.all[ui].phones.contains(pi) && a.all[uj].phones.contains(pj));
                assert(y.phones.contains(pi) && y.phones.contains(pj));
                assert(shared(b.all[k - 1], a.all[ui], pi));
                assert(shared(b.all[k - 1], a.all[uj], pj));
                assert(touching(b.all[k - 1], a.all[ui]) && touching(b.all[k - 1], a.all[uj]));
            }
        }
        lemma_absorbed_exact(before, y.companies, y.phones, y.debts);
        let hit = first_match(a.index_by_phone, y.phones);
        assert(first_match(before.index_by_phone, y.phones) == hit);
        let target: int = if hit is Some {
            hit->0 as int
        } else {
            before.all.len() as int
        };
        lemma_pointed(before.index_by_phone, y.phones, target as usize);
        assert(y.phones.no_duplicates() && y.companies.no_duplicates());
        // the phones of `y` are the phones that `b` points to it
        assert forall|p: Seq<char>|
            y.phones.contains(p) <==> b.index_by_phone.contains_key(p) && b.index_by_phone[p] == k
                - 1 by {
            if y.phones.contains(p) {
                assert(b.all[k - 1].phones.contains(p));
            }
            if b.index_by_phone.contains_key(p) && b.index_by_phone[p] == k - 1 {
                assert(b.all[b.index_by_phone[p] as int].phones.contains(p));
            }
        }
        assert forall|p: Seq<char>| #[trigger]
            after.index_by_phone.contains_key(p) <==> a.index_by_phone.contains_key(p) || (
            b.index_by_phone.contains_key(p) && b.index_by_phone[p] < k) by {
            assert(y.phones.contains(p) <==> b.index_by_phone.contains_key(p)
                && b.index_by_phone[p] == k - 1);
        }
        if hit is Some {
            let t = hit->0 as int;
            let j0 = choose|j: int|
                0 <= j < y.phones.len() && a.index_by_phone.contains_key(#[trigger] y.phones[j])
                    && a.index_by_phone[y.phones[j]] == hit->0;
            let seen = y.phones[j0];
            assert(0 <= t < a.all.len() && a.all[t].phones.contains(seen));
            assert(y.phones.contains(seen));
            assert(shared(a.all[t], y, seen));
            assert(touching(a.all[t], y));
            lemma_joined_sum_gains(a.all, b0, y, t);
            assert(before.all[t] == a.all[t]);
            let grown = after.all[t];
            lemma_summary_grown(a.all[t], y);
            assert(summary(grown) == joined(summary(a.all[t]), summary(y)));
            assert(after.all =~= before.all.update(t, grown));
            lemma_summaries_update(before.all, t, grown);
            // `y` has a partner, so it is not among the nodes without one
            lemma_touching(a.all[t], y);
            assert(touched(a.all, y));
            assert(lone_sum(b1, a.all) == lone_sum(b0, a.all));
            lemma_add_insert(joined_sum(a.all, b1), lone_sum(b1, a.all), summary(a.all[t]));
            lemma_add_insert(
                joined_sum(a.all, b0),
                lone_sum(b0, a.all),
                joined(summary(a.all[t]), summary(y)),
            );
            assert(summaries(after.all).insert(summary(a.all[t])) == paired(a.all, b1).insert(
                summary(a.all[t]),
            ));
            lemma_cancel(summaries(after.all), paired(a.all, b1), summary(a.all[t]));
            // the phones of `a` point where they pointed
            assert forall|p: Seq<char>| a.index_by_phone.contains_key(p) implies #[trigger] after.index_by_phone[p]
                == a.index_by_phone[p] by {
                if y.phones.contains(p) {
                    let u = a.index_by_phone[p] as int;
                    assert(a.all[u].phones.contains(p));
                    assert(shared(a.all[u], y, p));
                    assert(touching(a.all[u], y));
                    lemma_touching(a.all[u], y);
                    assert(b.all[k - 1] == y);
                    assert(touching(b.all[k - 1], a.all[u]) && touching(b.all[k - 1], a.all[t]));
                }
            }
            assert forall|i: int|
                0 <= i < a.all.len() && !touched(b1, #[trigger] a.all[i]) implies after.all[i]
                    == a.all[i] by {
                if touched(b0, a.all[i]) {
                    let j = choose|j: int| 0 <= j < b0.len() && touching(#[trigger] b0[j], a.all[i]);
                    assert(b1[j] == b0[j]);
                    assert(touching(b1[j], a.all[i]));
                }
                if i == t {
                    assert(b1[k - 1] == y);
                    assert(touching(b1[k - 1], a.all[i]));
                }
            }
        } else {
            // no node of `a` shares a phone with `y`
            assert forall|i: int| 0 <= i < a.all.len() implies !touching(y, #[trigger] a.all[i]) by {
                if touching(y, a.all[i]) {
                    let p = choose|p: Seq<char>| shared(y, a.all[i], p);
                    assert(a.all[i].phones.contains(p));
                    let j = choose|j: int| 0 <= j < y.phones.len() && y.phones[j] == p;
                    assert(a.index_by_phone.contains_key(y.phones[j]));
                }
            }
            assert(!touched(a.all, y)) by {
                if touched(a.all, y) {
                    let i = choose|i: int| 0 <= i < a.all.len() && touching(#[trigger] a.all[i], y);
                    lemma_touching(a.all[i], y);
                }
            }
            lemma_with_items_fresh(y.phones);
            lemma_with_items_fresh(y.companies);
            assert(Seq::<Debt>::empty() + y.debts =~= y.debts);
            assert(after.all =~= before.all.push(y));
            lemma_summaries_push(before.all, y);
            lemma_joined_sum_same(a.all, b0, y);
            assert(lone_sum(b1, a.all) == lone_sum(b0, a.all).insert(summary(y)));
            lemma_add_insert(joined_sum(a.all, b0), lone_sum(b0, a.all), summary(y));
            assert forall|p: Seq<char>| a.index_by_phone.contains_key(p) implies #[trigger] after.index_by_phone[p]
                == a.index_by_phone[p] by {
                if y.phones.contains(p) {
                    let j = choose|j: int| 0 <= j < y.phones.len() && y.phones[j] == p;
                    assert(a.index_by_phone.contains_key(y.phones[j]));
                }
            }
            assert forall|i: int|
                0 <= i < a.all.len() && !touched(b1, #[trigger] a.all[i]) implies after.all[i]
                    == a.all[i] by {
                if touched(b0, a.all[i]) {
                    let j = choose|j: int| 0 <= j < b0.len() && touching(#[trigger] b0[j], a.all[i]);
                    assert(b1[j] == b0[j]);
                    assert(touching(b1[j], a.all[i]));
                }
            }
        }
    }
}

/// Two partial graphs whose nodes share phones one to one can be taken in
/// either order: the nodes of the result hold the same companies, the same
/// phones and the same debts, whichever graph came first. Both graphs are to
/// be exact, every phone of a node pointing to that node.
pub proof fn lemma_fold_order_matched(a: DebtorsView, b: DebtorsView)
    requires
        well_formed(a),
        well_formed(b),
        index_exact(a),
        index_exact(b),
        one_to_one(a.all, b.all),
        a.all.len() + b.all.len() <= usize::MAX,
    ensures
        summaries(folded(folded(empty_debtors(), a), b).all) == summaries(
            folded(folded(empty_debtors(), b), a).all,
        ),
{
    lemma_merged_paired(a, b, b.all.len() as int);
    lemma_merged_paired(b, a, a.all.len() as int);
    assert(b.all.take(b.all.len() as int) =~= b.all);
    assert(a.all.take(a.all.len() as int) =~= a.all);
    lemma_paired(a.all, b.all);
    if a.all.len() == 0 {
        assert(a.all =~= Seq::<DebtorView>::empty());
    }
    if b.all.len() == 0 {
        assert(b.all =~= Seq::<DebtorView>::empty());
    }
}

} // verus!
