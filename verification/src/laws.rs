//! What holds of every graph that is built by folding records and merging
//! partial graphs.

use crate::debtors::{
    absorbed, empty_debtors, first_match, index_exact, index_sound, inserted_all,
    lemma_absorbed_exact, lemma_absorbed_well_formed, lemma_first_match, lemma_pointed, merged,
    single_minded, target_of, well_formed, with_items, with_target, DebtorView, DebtorsView,
};
use crate::extract::{Debt, DebtRecView};
use vstd::multiset::Multiset;
use vstd::prelude::*;
use vstd::seq_lib::{lemma_multiset_commutative, lemma_seq_union_to_multiset_commutative};

verus! {

/// Folding records keeps a graph well formed, and so its index sound:
/// every phone that the index knows is a phone of the node it points to.
pub proof fn lemma_inserted_all_well_formed(g: DebtorsView, records: Seq<DebtRecView>)
    requires
        well_formed(g),
        g.all.len() + records.len() <= usize::MAX,
    ensures
        well_formed(inserted_all(g, records)),
        index_sound(inserted_all(g, records)),
        inserted_all(g, records).all.len() <= g.all.len() + records.len(),
    decreases records.len(),
{
    if records.len() > 0 {
        lemma_inserted_all_well_formed(g, records.drop_last());
        let before = inserted_all(g, records.drop_last());
        let dr = records.last();
        lemma_absorbed_well_formed(before, seq![dr.company], dr.phones, seq![dr.debt]);
    }
}

/// Merging nodes into a graph keeps it well formed, and so its index sound.
pub proof fn lemma_merged_well_formed(g: DebtorsView, nodes: Seq<DebtorView>)
    requires
        well_formed(g),
        g.all.len() + nodes.len() <= usize::MAX,
    ensures
        well_formed(merged(g, nodes)),
        index_sound(merged(g, nodes)),
        merged(g, nodes).all.len() <= g.all.len() + nodes.len(),
    decreases nodes.len(),
{
    if nodes.len() > 0 {
        lemma_merged_well_formed(g, nodes.drop_last());
        let before = merged(g, nodes.drop_last());
        let node = nodes.last();
        lemma_absorbed_well_formed(before, node.companies, node.phones, node.debts);
    }
}

/// Each record of the list, at its turn, leads to one node at most: those of
/// its phones that are known then all point to the same node.
pub open spec fn single_minded_all(g: DebtorsView, records: Seq<DebtRecView>) -> bool
    decreases records.len(),
{
    if records.len() == 0 {
        true
    } else {
        single_minded_all(g, records.drop_last()) && single_minded(
            inserted_all(g, records.drop_last()),
            records.last().phones,
        )
    }
}

/// Where no record leads to two nodes, every phone of every node points to
/// that node after the fold.
pub proof fn lemma_inserted_all_exact(g: DebtorsView, records: Seq<DebtRecView>)
    requires
        well_formed(g),
        index_exact(g),
        single_minded_all(g, records),
        g.all.len() + records.len() <= usize::MAX,
    ensures
        index_exact(inserted_all(g, records)),
    decreases records.len(),
{
    if records.len() > 0 {
        lemma_inserted_all_exact(g, records.drop_last());
        lemma_inserted_all_well_formed(g, records.drop_last());
        let before = inserted_all(g, records.drop_last());
        let dr = records.last();
        lemma_absorbed_exact(before, seq![dr.company], dr.phones, seq![dr.debt]);
    }
}

/// Each node of the list, at its turn in a merge, leads to one node at most:
/// those of its phones that are known then all point to the same node.
pub open spec fn single_minded_nodes(g: DebtorsView, nodes: Seq<DebtorView>) -> bool
    decreases nodes.len(),
{
    if nodes.len() == 0 {
        true
    } else {
        single_minded_nodes(g, nodes.drop_last()) && single_minded(
            merged(g, nodes.drop_last()),
            nodes.last().phones,
        )
    }
}

/// Where no merged node leads to two nodes, every phone of every node
/// points to that node after the merge.
pub proof fn lemma_merged_exact(g: DebtorsView, nodes: Seq<DebtorView>)
    requires
        well_formed(g),
        index_exact(g),
        single_minded_nodes(g, nodes),
        g.all.len() + nodes.len() <= usize::MAX,
    ensures
        index_exact(merged(g, nodes)),
    decreases nodes.len(),
{
    if nodes.len() > 0 {
        lemma_merged_exact(g, nodes.drop_last());
        lemma_merged_well_formed(g, nodes.drop_last());
        let before = merged(g, nodes.drop_last());
        let node = nodes.last();
        lemma_absorbed_exact(before, node.companies, node.phones, node.debts);
    }
}

/// All the amounts that the nodes hold, each as often as it was taken up.
pub open spec fn all_debts(nodes: Seq<DebtorView>) -> Multiset<Debt>
    decreases nodes.len(),
{
    if nodes.len() == 0 {
        Multiset::empty()
    } else {
        all_debts(nodes.drop_last()).add(nodes.last().debts.to_multiset())
    }
}

/// All the amounts of a list of records, each as often as it occurs.
pub open spec fn record_debts(records: Seq<DebtRecView>) -> Multiset<Debt>
    decreases records.len(),
{
    if records.len() == 0 {
        Multiset::empty()
    } else {
        record_debts(records.drop_last()).insert(records.last().debt)
    }
}

/// No amounts make the empty multiset.
proof fn lemma_no_debts()
    ensures
        Seq::<Debt>::empty().to_multiset() == Multiset::<Debt>::empty(),
{
    broadcast use vstd::multiset::group_multiset_axioms;

    vstd::seq_lib::to_multiset_len(Seq::<Debt>::empty());
    vstd::multiset::lemma_multiset_empty_len(Seq::<Debt>::empty().to_multiset());
    assert(Seq::<Debt>::empty().to_multiset() =~= Multiset::<Debt>::empty());
}

/// A node that takes up amounts adds them to what the nodes hold.
proof fn lemma_all_debts_update(nodes: Seq<DebtorView>, at: int, node: DebtorView, debts: Seq<Debt>)
    requires
        0 <= at < nodes.len(),
        node.debts == nodes[at].debts + debts,
    ensures
        all_debts(nodes.update(at, node)) == all_debts(nodes).add(debts.to_multiset()),
    decreases nodes.len(),
{
    let after = nodes.update(at, node);
    if at == nodes.len() - 1 {
        assert(after.drop_last() =~= nodes.drop_last());
        lemma_multiset_commutative(nodes[at].debts, debts);
        assert(all_debts(after) =~= all_debts(nodes).add(debts.to_multiset()));
    } else {
        assert(after.drop_last() =~= nodes.drop_last().update(at, node));
        lemma_all_debts_update(nodes.drop_last(), at, node, debts);
        assert(all_debts(after) =~= all_debts(nodes).add(debts.to_multiset()));
    }
}

/// Every phone that the index knows points to a node that is there.
pub open spec fn in_range(g: DebtorsView) -> bool {
    forall|p: Seq<char>| #[trigger]
        g.index_by_phone.contains_key(p) ==> g.index_by_phone[p] < g.all.len()
}

/// One step keeps the index pointing to nodes that are there, however many
/// nodes there are.
pub proof fn lemma_absorbed_in_range(
    g: DebtorsView,
    companies: Seq<Seq<char>>,
    phones: Seq<Seq<char>>,
    debts: Seq<Debt>,
)
    requires
        in_range(g),
    ensures
        in_range(absorbed(g, companies, phones, debts)),
        0 <= target_of(g, phones) < with_target(g, phones).len(),
        absorbed(g, companies, phones, debts).all.len() == with_target(g, phones).len(),
{
    let after = absorbed(g, companies, phones, debts);
    let target = target_of(g, phones);
    lemma_first_match(g.index_by_phone, phones, 0);
    lemma_pointed(g.index_by_phone, phones, target as usize);
    assert((target as usize) < after.all.len());
    assert forall|p: Seq<char>| #[trigger] after.index_by_phone.contains_key(p) implies after.index_by_phone[p]
        < after.all.len() by {
        if !phones.contains(p) {
            assert(g.index_by_phone.contains_key(p));
        }
    }
}

/// Nothing is lost and nothing is made up in one step: the nodes hold what
/// they held, and the amounts that were taken up.
pub proof fn lemma_absorbed_debts(
    g: DebtorsView,
    companies: Seq<Seq<char>>,
    phones: Seq<Seq<char>>,
    debts: Seq<Debt>,
)
    requires
        in_range(g),
    ensures
        all_debts(absorbed(g, companies, phones, debts).all) == all_debts(g.all).add(
            debts.to_multiset(),
        ),
{
    let target = target_of(g, phones);
    let base = with_target(g, phones);
    lemma_absorbed_in_range(g, companies, phones, debts);
    if first_match(g.index_by_phone, phones) is None {
        assert(base.drop_last() =~= g.all);
        lemma_no_debts();
        assert(all_debts(base) =~= all_debts(g.all));
    }
    lemma_all_debts_update(base, target, absorbed(g, companies, phones, debts).all[target], debts);
}

/// The debts are conserved over a fold: the nodes hold what they held, and
/// the debt of every record that was folded in, each once.
pub proof fn lemma_inserted_all_debts(g: DebtorsView, records: Seq<DebtRecView>)
    requires
        in_range(g),
    ensures
        in_range(inserted_all(g, records)),
        all_debts(inserted_all(g, records).all) == all_debts(g.all).add(record_debts(records)),
    decreases records.len(),
{
    if records.len() == 0 {
        assert(all_debts(g.all).add(Multiset::empty()) =~= all_debts(g.all));
    } else {
        lemma_inserted_all_debts(g, records.drop_last());
        let before = inserted_all(g, records.drop_last());
        let dr = records.last();
        lemma_absorbed_in_range(before, seq![dr.company], dr.phones, seq![dr.debt]);
        lemma_absorbed_debts(before, seq![dr.company], dr.phones, seq![dr.debt]);
        assert(seq![dr.debt] =~= Seq::<Debt>::empty().push(dr.debt));
        vstd::seq_lib::to_multiset_build(Seq::<Debt>::empty(), dr.debt);
        lemma_no_debts();
        assert(all_debts(inserted_all(g, records).all) =~= all_debts(g.all).add(
            record_debts(records),
        ));
    }
}

/// The debts are conserved over a merge: the result holds what it held, and
/// all that the merged nodes held.
pub proof fn lemma_merged_debts(g: DebtorsView, nodes: Seq<DebtorView>)
    requires
        in_range(g),
    ensures
        in_range(merged(g, nodes)),
        all_debts(merged(g, nodes).all) == all_debts(g.all).add(all_debts(nodes)),
    decreases nodes.len(),
{
    if nodes.len() == 0 {
        assert(all_debts(g.all).add(Multiset::empty()) =~= all_debts(g.all));
    } else {
        lemma_merged_debts(g, nodes.drop_last());
        let before = merged(g, nodes.drop_last());
        let node = nodes.last();
        lemma_absorbed_in_range(before, node.companies, node.phones, node.debts);
        lemma_absorbed_debts(before, node.companies, node.phones, node.debts);
        assert(all_debts(merged(g, nodes).all) =~= all_debts(g.all).add(all_debts(nodes)));
    }
}

/// The running result after it took a partial graph: the first one is
/// taken as it is, every later one is merged into it.
pub open spec fn folded(result: DebtorsView, part: DebtorsView) -> DebtorsView {
    if result.all.len() == 0 {
        part
    } else {
        merged(result, part.all)
    }
}

/// No phone is known to both graphs.
pub open spec fn share_no_phone(a: DebtorsView, b: DebtorsView) -> bool {
    forall|p: Seq<char>|
        !(#[trigger] a.index_by_phone.contains_key(p) && b.index_by_phone.contains_key(p))
}

/// A set that is built from nothing is its members in their order, if none
/// of them comes twice.
pub proof fn lemma_with_items_fresh(xs: Seq<Seq<char>>)
    requires
        xs.no_duplicates(),
    ensures
        with_items(Seq::empty(), xs) == xs,
    decreases xs.len(),
{
    if xs.len() == 0 {
        assert(xs =~= Seq::<Seq<char>>::empty());
    } else {
        assert(xs.drop_last().no_duplicates());
        lemma_with_items_fresh(xs.drop_last());
        if xs.drop_last().contains(xs.last()) {
            let k = choose|k: int| 0 <= k < xs.drop_last().len() && xs.drop_last()[k] == xs.last();
            assert(xs[k] == xs[xs.len() - 1]);
        }
        assert(xs.drop_last().push(xs.last()) =~= xs);
    }
}

/// Merging the first `k` nodes of a graph `b` into a graph `a` that shares
/// no phone with it puts them behind the nodes of `a` as they are.
proof fn lemma_merged_apart(a: DebtorsView, b: DebtorsView, k: int)
    requires
        well_formed(a),
        well_formed(b),
        index_exact(b),
        share_no_phone(a, b),
        0 <= k <= b.all.len(),
        a.all.len() + b.all.len() <= usize::MAX,
    ensures
        merged(a, b.all.take(k)).all == a.all + b.all.take(k),
        forall|p: Seq<char>| #[trigger]
            merged(a, b.all.take(k)).index_by_phone.contains_key(p) <==> a.index_by_phone.contains_key(
                p,
            ) || (b.index_by_phone.contains_key(p) && b.index_by_phone[p] < k),
    decreases k,
{
    if k == 0 {
        assert(b.all.take(0) =~= Seq::<DebtorView>::empty());
        assert(a.all + b.all.take(0) =~= a.all);
    } else {
        lemma_merged_apart(a, b, k - 1);
        assert(b.all.take(k).drop_last() =~= b.all.take(k - 1));
        assert(b.all.take(k).last() == b.all[k - 1]);
        let before = merged(a, b.all.take(k - 1));
        let node = b.all[k - 1];
        let after = merged(a, b.all.take(k));
        assert(after == absorbed(before, node.companies, node.phones, node.debts));
        lemma_first_match(before.index_by_phone, node.phones, 0);
        assert forall|j: int| 0 <= j < node.phones.len() implies !before.index_by_phone.contains_key(
            #[trigger] node.phones[j],
        ) by {
            let p = node.phones[j];
            assert(b.all[k - 1].phones.contains(p));
            assert(b.index_by_phone.contains_key(p) && b.index_by_phone[p] == k - 1);
        }
        assert(first_match(before.index_by_phone, node.phones) is None);
        let target = before.all.len() as int;
        lemma_with_items_fresh(node.phones);
        lemma_with_items_fresh(node.companies);
        lemma_pointed(before.index_by_phone, node.phones, target as usize);
        assert(node.debts =~= Seq::<Debt>::empty() + node.debts);
        assert(after.all =~= a.all + b.all.take(k));
        assert forall|p: Seq<char>| #[trigger]
            after.index_by_phone.contains_key(p) <==> a.index_by_phone.contains_key(p) || (
            b.index_by_phone.contains_key(p) && b.index_by_phone[p] < k) by {
            if node.phones.contains(p) {
                assert(b.all[k - 1].phones.contains(p));
            }
            if b.index_by_phone.contains_key(p) && b.index_by_phone[p] == k - 1 {
                assert(b.all[b.index_by_phone[p] as int].phones.contains(p));
            }
        }
    }
}

/// Two partial graphs that share no phone can be taken in either order: the
/// result holds the same nodes, each as often, whichever comes first.
pub proof fn lemma_fold_order(a: DebtorsView, b: DebtorsView)
    requires
        well_formed(a),
        well_formed(b),
        index_exact(a),
        index_exact(b),
        share_no_phone(a, b),
        a.all.len() + b.all.len() <= usize::MAX,
    ensures
        folded(folded(empty_debtors(), a), b).all.to_multiset() == folded(
            folded(empty_debtors(), b),
            a,
        ).all.to_multiset(),
{
    lemma_merged_apart(a, b, b.all.len() as int);
    assert(share_no_phone(b, a));
    lemma_merged_apart(b, a, a.all.len() as int);
    assert(b.all.take(b.all.len() as int) =~= b.all);
    assert(a.all.take(a.all.len() as int) =~= a.all);
    lemma_seq_union_to_multiset_commutative(a.all, b.all);
    if a.all.len() == 0 {
        assert(b.all + a.all =~= b.all);
    }
    if b.all.len() == 0 {
        assert(a.all + b.all =~= a.all);
    }
}

/// One worker alone gives what the run in line gives: the graph of the
/// only worker, taken as the first partial graph, is the result as it is,
/// with its nodes in their order.
pub proof fn lemma_one_worker(part: DebtorsView)
    ensures
        folded(empty_debtors(), part) == part,
{
}

/// A merge keeps what the result held and adds what the partial graph held:
/// taking partial graphs in either order conserves the same debts.
pub proof fn lemma_fold_order_debts(a: DebtorsView, b: DebtorsView)
    requires
        in_range(a),
        in_range(b),
    ensures
        all_debts(folded(folded(empty_debtors(), a), b).all) == all_debts(
            folded(folded(empty_debtors(), b), a).all,
        ),
{
    lemma_merged_debts(a, b.all);
    lemma_merged_debts(b, a.all);
    assert(all_debts(a.all).add(all_debts(b.all)) =~= all_debts(b.all).add(all_debts(a.all)));
    if a.all.len() == 0 {
        assert(all_debts(b.all).add(Multiset::empty()) =~= all_debts(b.all));
    }
    if b.all.len() == 0 {
        assert(all_debts(a.all).add(Multiset::empty()) =~= all_debts(a.all));
    }
}

} // verus!
