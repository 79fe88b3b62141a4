//! Records with one phone at most.
//!
//! Where every record names one phone at most, a node is what belongs to one
//! phone, or one record without a phone. What a graph then holds can be said
//! phone by phone, and adds up: it does not depend on the order of the
//! records, nor on how they were dealt out to workers.

use crate::debtors::{
    absorbed, index_exact, inserted_all, lemma_absorbed_exact, lemma_absorbed_well_formed,
    lemma_first_match, lemma_pointed, lemma_with_items, merged, target_of, well_formed,
    with_items, with_target, DebtorView, DebtorsView,
};
use crate::extract::{Debt, DebtRecView};
use crate::laws::folded;
use vstd::multiset::Multiset;
use vstd::prelude::*;

verus! {

/// What belongs together: companies and debts.
#[verifier::ext_equal]
pub struct Holding {
    /// The companies.
    pub companies: Set<Seq<char>>,
    /// The amounts, each as often as it was taken up.
    pub debts: Multiset<Debt>,
}

/// What a graph of such records holds: for each phone what belongs to it,
/// and what each node without a phone holds.
#[verifier::ext_equal]
pub struct Content {
    /// What belongs to each phone.
    pub by_phone: Map<Seq<char>, Holding>,
    /// What the nodes without a phone hold, node by node.
    pub loners: Multiset<Holding>,
}

/// All the phones of the list are one phone.
pub open spec fn one_phone(phones: Seq<Seq<char>>) -> bool {
    forall|i: int, j: int|
        0 <= i < phones.len() && 0 <= j < phones.len() ==> #[trigger] phones[i]
            == #[trigger] phones[j]
}

/// A graph of records with one phone at most: well formed, every phone of a
/// node pointing to that node, and no node with two phones.
pub open spec fn plain(g: DebtorsView) -> bool {
    &&& well_formed(g)
    &&& index_exact(g)
    &&& forall|i: int| 0 <= i < g.all.len() ==> (#[trigger] g.all[i]).phones.len() <= 1
}

/// The companies and the debts of these lists.
pub open spec fn held(companies: Seq<Seq<char>>, debts: Seq<Debt>) -> Holding {
    Holding { companies: companies.to_set(), debts: debts.to_multiset() }
}

/// What the node holds.
pub open spec fn holding(n: DebtorView) -> Holding {
    held(n.companies, n.debts)
}

/// What belongs to each phone of the graph.
pub open spec fn by_phone(g: DebtorsView) -> Map<Seq<char>, Holding> {
    Map::new(
        |p: Seq<char>| g.index_by_phone.contains_key(p),
        |p: Seq<char>| holding(g.all[g.index_by_phone[p] as int]),
    )
}

/// What the nodes without a phone hold.
pub open spec fn loners(nodes: Seq<DebtorView>) -> Multiset<Holding>
    decreases nodes.len(),
{
    if nodes.len() == 0 {
        Multiset::empty()
    } else if nodes.last().phones.len() == 0 {
        loners(nodes.drop_last()).insert(holding(nodes.last()))
    } else {
        loners(nodes.drop_last())
    }
}

/// What the graph holds.
pub open spec fn content(g: DebtorsView) -> Content {
    Content { by_phone: by_phone(g), loners: loners(g.all) }
}

/// Two holdings put together.
pub open spec fn plus_holding(x: Holding, y: Holding) -> Holding {
    Holding { companies: x.companies.union(y.companies), debts: x.debts.add(y.debts) }
}

/// Two contents put together: what belongs to a phone in both is put
/// together.
pub open spec fn plus(x: Content, y: Content) -> Content {
    Content {
        by_phone: Map::new(
            |p: Seq<char>| x.by_phone.contains_key(p) || y.by_phone.contains_key(p),
            |p: Seq<char>|
                if x.by_phone.contains_key(p) && y.by_phone.contains_key(p) {
                    plus_holding(x.by_phone[p], y.by_phone[p])
                } else if x.by_phone.contains_key(p) {
                    x.by_phone[p]
                } else {
                    y.by_phone[p]
                },
        ),
        loners: x.loners.add(y.loners),
    }
}

/// No content.
pub open spec fn no_content() -> Content {
    Content { by_phone: Map::empty(), loners: Multiset::empty() }
}

/// The content of companies and debts that belong to the phone of `phones`,
/// or to none.
pub open spec fn unit(companies: Seq<Seq<char>>, phones: Seq<Seq<char>>, debts: Seq<Debt>) -> Content {
    if phones.len() == 0 {
        Content {
            by_phone: Map::empty(),
            loners: Multiset::empty().insert(held(companies, debts)),
        }
    } else {
        Content {
            by_phone: Map::empty().insert(phones[0], held(companies, debts)),
            loners: Multiset::empty(),
        }
    }
}

/// Putting contents together does not depend on the order or the grouping,
/// and no content changes nothing.
pub proof fn lemma_plus(x: Content, y: Content, z: Content)
    ensures
        plus(x, y) == plus(y, x),
        plus(plus(x, y), z) == plus(x, plus(y, z)),
        plus(x, no_content()) == x,
        plus(no_content(), x) == x,
{
    broadcast use vstd::multiset::group_multiset_axioms;

    assert(plus(x, y).loners =~= plus(y, x).loners);
    assert forall|p: Seq<char>| #[trigger]
        plus(x, y).by_phone.contains_key(p) implies plus(x, y).by_phone[p] == plus(
        y,
        x,
    ).by_phone[p] by {
        if x.by_phone.contains_key(p) && y.by_phone.contains_key(p) {
            assert(plus_holding(x.by_phone[p], y.by_phone[p]) =~~= plus_holding(
                y.by_phone[p],
                x.by_phone[p],
            ));
        }
    }
    assert(plus(x, y).by_phone =~= plus(y, x).by_phone);
    assert(plus(plus(x, y), z).loners =~= plus(x, plus(y, z)).loners);
    assert forall|p: Seq<char>| #[trigger]
        plus(plus(x, y), z).by_phone.contains_key(p) implies plus(plus(x, y), z).by_phone[p]
        == plus(x, plus(y, z)).by_phone[p] by {
        let a = x.by_phone[p];
        let b = y.by_phone[p];
        let c = z.by_phone[p];
        assert(plus_holding(plus_holding(a, b), c) =~~= plus_holding(a, plus_holding(b, c)));
    }
    assert(plus(plus(x, y), z).by_phone =~= plus(x, plus(y, z)).by_phone);
    assert(plus(x, no_content()).loners =~= x.loners);
    assert(plus(x, no_content()).by_phone =~= x.by_phone);
    assert(plus(no_content(), x).loners =~= x.loners);
    assert(plus(no_content(), x).by_phone =~= x.by_phone);
}

/// A set with one phone at most that takes in a list of one phone holds
/// that phone alone.
proof fn lemma_with_items_one(s: Seq<Seq<char>>, xs: Seq<Seq<char>>)
    requires
        one_phone(xs),
        xs.len() > 0,
        s.len() <= 1,
        s.len() == 1 ==> s[0] == xs[0],
    ensures
        with_items(s, xs) == seq![xs[0]],
    decreases xs.len(),
{
    let p = xs[0];
    let rest = xs.drop_last();
    assert(xs.last() == xs[xs.len() - 1]);
    assert(xs.last() == p);
    if rest.len() == 0 {
        assert(with_items(s, rest) == s);
        if s.len() == 1 {
            assert(s =~= seq![p]);
            assert(s[0] == p);
            assert(s.contains(p));
        } else {
            assert(s =~= Seq::<Seq<char>>::empty());
            assert(s.push(p) =~= seq![p]);
        }
    } else {
        assert(one_phone(rest)) by {
            assert forall|i: int, j: int|
                0 <= i < rest.len() && 0 <= j < rest.len() implies #[trigger] rest[i]
                == #[trigger] rest[j] by {
                assert(rest[i] == xs[i] && rest[j] == xs[j]);
            }
        }
        assert(rest[0] == xs[0]);
        lemma_with_items_one(s, rest);
        assert(seq![p][0] == p);
        assert(seq![p].contains(p));
    }
}

/// A node more with a phone is no node more without one; a node more
/// without a phone is.
proof fn lemma_loners_push(nodes: Seq<DebtorView>, n: DebtorView)
    ensures
        loners(nodes.push(n)) == if n.phones.len() == 0 {
            loners(nodes).insert(holding(n))
        } else {
            loners(nodes)
        },
{
    assert(nodes.push(n).drop_last() =~= nodes);
}

/// A node with a phone that changes and keeps a phone changes nothing for
/// the nodes without one.
proof fn lemma_loners_update(nodes: Seq<DebtorView>, at: int, n: DebtorView)
    requires
        0 <= at < nodes.len(),
        nodes[at].phones.len() > 0,
        n.phones.len() > 0,
    ensures
        loners(nodes.update(at, n)) == loners(nodes),
    decreases nodes.len(),
{
    let after = nodes.update(at, n);
    if at == nodes.len() - 1 {
        assert(after.drop_last() =~= nodes.drop_last());
    } else {
        assert(after.drop_last() =~= nodes.drop_last().update(at, n));
        lemma_loners_update(nodes.drop_last(), at, n);
    }
}

/// What a node holds after it took up companies and debts.
proof fn lemma_holding_grown(n: DebtorView, companies: Seq<Seq<char>>, debts: Seq<Debt>)
    ensures
        held(with_items(n.companies, companies), n.debts + debts) == plus_holding(
            holding(n),
            held(companies, debts),
        ),
        held(with_items(Seq::empty(), companies), Seq::<Debt>::empty() + debts) == held(
            companies,
            debts,
        ),
{
    lemma_with_items(n.companies, companies);
    lemma_with_items(Seq::empty(), companies);
    vstd::seq_lib::lemma_multiset_commutative(n.debts, debts);
    assert(with_items(n.companies, companies).to_set() =~= n.companies.to_set().union(
        companies.to_set(),
    ));
    assert(with_items(Seq::empty(), companies).to_set() =~= companies.to_set());
    assert(Seq::<Debt>::empty() + debts =~= debts);
}

/// One step in a graph of records with one phone at most: the graph stays
/// such a graph, and what it holds grows by what was taken up.
pub proof fn lemma_absorbed_plain(
    g: DebtorsView,
    companies: Seq<Seq<char>>,
    phones: Seq<Seq<char>>,
    debts: Seq<Debt>,
)
    requires
        plain(g),
        one_phone(phones),
        g.all.len() <= usize::MAX,
    ensures
        plain(absorbed(g, companies, phones, debts)),
        content(absorbed(g, companies, phones, debts)) == plus(
            content(g),
            unit(companies, phones, debts),
        ),
{
    let after = absorbed(g, companies, phones, debts);
    let target = target_of(g, phones);
    let base = with_target(g, phones);
    let node = base[target];
    let grown = after.all[target];
    let hit = crate::debtors::first_match(g.index_by_phone, phones);
    lemma_absorbed_well_formed(g, companies, phones, debts);
    lemma_absorbed_exact(g, companies, phones, debts);
    lemma_first_match(g.index_by_phone, phones, 0);
    lemma_pointed(g.index_by_phone, phones, target as usize);
    lemma_holding_grown(node, companies, debts);
    assert forall|i: int| 0 <= i < after.all.len() && i != target implies after.all[i]
        == g.all[i] by {}
    if phones.len() == 0 {
        assert(hit is None);
        assert(grown.phones =~= Seq::<Seq<char>>::empty());
        assert(after.all =~= g.all.push(grown));
        lemma_loners_push(g.all, grown);
        assert(after.index_by_phone == g.index_by_phone);
        assert(by_phone(after) =~= by_phone(g));
        assert(content(after).by_phone =~= plus(
            content(g),
            unit(companies, phones, debts),
        ).by_phone);
        assert(content(after) =~= plus(content(g), unit(companies, phones, debts)));
    } else {
        let p = phones[0];
        assert forall|q: Seq<char>| phones.contains(q) <==> q == p by {
            if phones.contains(q) {
                let k = choose|k: int| 0 <= k < phones.len() && phones[k] == q;
                assert(phones[k] == phones[0]);
            }
        }
        if hit is Some {
            let k = choose|k: int|
                0 <= k < phones.len() && g.index_by_phone.contains_key(#[trigger] phones[k])
                    && g.index_by_phone[phones[k]] == hit->0;
            assert(phones[k] == phones[0]);
            assert(g.index_by_phone.contains_key(p) && g.index_by_phone[p] == target);
            assert(g.all[target].phones.contains(p));
            assert(node.phones.len() == 1);
            let m = choose|m: int| 0 <= m < node.phones.len() && node.phones[m] == p;
            assert(node.phones[0] == p);
            lemma_with_items_one(node.phones, phones);
            assert(after.all =~= g.all.update(target, grown));
            lemma_loners_update(g.all, target, grown);
        } else {
            assert(!g.index_by_phone.contains_key(phones[0]));
            lemma_with_items_one(node.phones, phones);
            assert(after.all =~= g.all.push(grown));
            lemma_loners_push(g.all, grown);
        }
        assert(grown.phones == seq![p]);
        assert(grown.phones.len() == 1);
        let sum = plus(content(g), unit(companies, phones, debts));
        assert forall|q: Seq<char>| #[trigger]
            by_phone(after).contains_key(q) <==> sum.by_phone.contains_key(q) by {}
        assert forall|q: Seq<char>| #[trigger]
            by_phone(after).contains_key(q) implies by_phone(after)[q] == sum.by_phone[q] by {
            if q == p {
                assert(after.index_by_phone[q] == target);
            } else {
                let u = g.index_by_phone[q] as int;
                assert(after.index_by_phone[q] == u);
                assert(g.all[u].phones.contains(q));
                if u == target {
                    assert(hit is Some);
                    assert(node.phones[0] == p);
                    let m = choose|m: int| 0 <= m < node.phones.len() && node.phones[m] == q;
                    assert(false);
                }
            }
        }
        assert(by_phone(after) =~= sum.by_phone);
        assert(content(after).loners =~= sum.loners);
        assert(content(after) =~= sum);
    }
    assert forall|i: int| 0 <= i < after.all.len() implies (#[trigger] after.all[i]).phones.len()
        <= 1 by {
        if i != target {
            assert(after.all[i] == g.all[i]);
        }
    }
}

/// What one record holds.
pub open spec fn unit_of(dr: DebtRecView) -> Content {
    unit(seq![dr.company], dr.phones, seq![dr.debt])
}

/// What a list of records holds.
pub open spec fn total(records: Seq<DebtRecView>) -> Content
    decreases records.len(),
{
    if records.len() == 0 {
        no_content()
    } else {
        plus(total(records.drop_last()), unit_of(records.last()))
    }
}

/// Every record of the list names one phone at most.
pub open spec fn all_one_phone(records: Seq<DebtRecView>) -> bool {
    forall|i: int| 0 <= i < records.len() ==> one_phone((#[trigger] records[i]).phones)
}

/// Folding records with one phone at most adds what they hold to what the
/// graph holds.
pub proof fn lemma_inserted_all_plain(g: DebtorsView, records: Seq<DebtRecView>)
    requires
        plain(g),
        all_one_phone(records),
        g.all.len() + records.len() <= usize::MAX,
    ensures
        plain(inserted_all(g, records)),
        inserted_all(g, records).all.len() <= g.all.len() + records.len(),
        content(inserted_all(g, records)) == plus(content(g), total(records)),
    decreases records.len(),
{
    if records.len() == 0 {
        lemma_plus(content(g), no_content(), no_content());
    } else {
        assert(all_one_phone(records.drop_last())) by {
            assert forall|i: int| 0 <= i < records.drop_last().len() implies one_phone(
                (#[trigger] records.drop_last()[i]).phones,
            ) by {
                assert(records.drop_last()[i] == records[i]);
            }
        }
        lemma_inserted_all_plain(g, records.drop_last());
        let before = inserted_all(g, records.drop_last());
        let dr = records.last();
        assert(dr == records[records.len() - 1]);
        lemma_absorbed_plain(before, seq![dr.company], dr.phones, seq![dr.debt]);
        lemma_absorbed_well_formed(before, seq![dr.company], dr.phones, seq![dr.debt]);
        lemma_plus(content(g), total(records.drop_last()), unit_of(dr));
    }
}

/// What the first `k` nodes of a graph hold.
pub open spec fn content_upto(b: DebtorsView, k: int) -> Content {
    Content {
        by_phone: Map::new(
            |p: Seq<char>| b.index_by_phone.contains_key(p) && b.index_by_phone[p] < k,
            |p: Seq<char>| holding(b.all[b.index_by_phone[p] as int]),
        ),
        loners: loners(b.all.take(k)),
    }
}

/// The node after the first `k - 1` adds what it holds.
proof fn lemma_content_upto(b: DebtorsView, k: int)
    requires
        plain(b),
        0 < k <= b.all.len(),
    ensures
        content_upto(b, k) == plus(
            content_upto(b, k - 1),
            unit(b.all[k - 1].companies, b.all[k - 1].phones, b.all[k - 1].debts),
        ),
        one_phone(b.all[k - 1].phones),
{
    let node = b.all[k - 1];
    let one = unit(node.companies, node.phones, node.debts);
    let sum = plus(content_upto(b, k - 1), one);
    assert(b.all.take(k) =~= b.all.take(k - 1).push(node));
    lemma_loners_push(b.all.take(k - 1), node);
    assert(node.phones.len() <= 1);
    assert(content_upto(b, k).loners =~= sum.loners);
    assert forall|p: Seq<char>|
        node.phones.contains(p) <==> b.index_by_phone.contains_key(p) && b.index_by_phone[p] == k
            - 1 by {
        if node.phones.contains(p) {
            assert(b.all[k - 1].phones.contains(p));
        }
        if b.index_by_phone.contains_key(p) && b.index_by_phone[p] == k - 1 {
            assert(b.all[b.index_by_phone[p] as int].phones.contains(p));
        }
    }
    assert forall|p: Seq<char>| #[trigger]
        content_upto(b, k).by_phone.contains_key(p) <==> sum.by_phone.contains_key(p) by {
        if node.phones.len() > 0 {
            assert(node.phones.contains(node.phones[0]));
            if node.phones.contains(p) {
                let m = choose|m: int| 0 <= m < node.phones.len() && node.phones[m] == p;
            }
        } else {
            if node.phones.contains(p) {
                let m = choose|m: int| 0 <= m < node.phones.len() && node.phones[m] == p;
            }
        }
    }
    assert forall|p: Seq<char>| #[trigger]
        content_upto(b, k).by_phone.contains_key(p) implies content_upto(b, k).by_phone[p]
        == sum.by_phone[p] by {
        if node.phones.len() > 0 {
            assert(node.phones.contains(node.phones[0]));
        }
    }
    assert(content_upto(b, k).by_phone =~= sum.by_phone);
    assert(content_upto(b, k) =~= sum);
}

/// Merging a graph of records with one phone at most into another adds what
/// it holds.
pub proof fn lemma_merged_plain(a: DebtorsView, b: DebtorsView, k: int)
    requires
        plain(a),
        plain(b),
        0 <= k <= b.all.len(),
        a.all.len() + b.all.len() <= usize::MAX,
    ensures
        plain(merged(a, b.all.take(k))),
        merged(a, b.all.take(k)).all.len() <= a.all.len() + k,
        content(merged(a, b.all.take(k))) == plus(content(a), content_upto(b, k)),
    decreases k,
{
    if k == 0 {
        assert(b.all.take(0) =~= Seq::<DebtorView>::empty());
        assert(content_upto(b, 0).by_phone =~= no_content().by_phone);
        assert(content_upto(b, 0) =~= no_content());
        lemma_plus(content(a), no_content(), no_content());
    } else {
        lemma_merged_plain(a, b, k - 1);
        assert(b.all.take(k).drop_last() =~= b.all.take(k - 1));
        assert(b.all.take(k).last() == b.all[k - 1]);
        let before = merged(a, b.all.take(k - 1));
        let node = b.all[k - 1];
        lemma_content_upto(b, k);
        lemma_absorbed_plain(before, node.companies, node.phones, node.debts);
        lemma_absorbed_well_formed(before, node.companies, node.phones, node.debts);
        lemma_plus(
            content(a),
            content_upto(b, k - 1),
            unit(node.companies, node.phones, node.debts),
        );
    }
}

/// Taking in a partial graph of records with one phone at most adds what it
/// holds, whether it is the first or a later one.
pub proof fn lemma_folded_plain(a: DebtorsView, b: DebtorsView)
    requires
        plain(a),
        plain(b),
        a.all.len() + b.all.len() <= usize::MAX,
    ensures
        plain(folded(a, b)),
        folded(a, b).all.len() <= a.all.len() + b.all.len(),
        content(folded(a, b)) == plus(content(a), content(b)),
{
    lemma_merged_plain(a, b, b.all.len() as int);
    assert(b.all.take(b.all.len() as int) =~= b.all);
    assert(content_upto(b, b.all.len() as int).by_phone =~= content(b).by_phone);
    assert(content_upto(b, b.all.len() as int) =~= content(b));
    if a.all.len() == 0 {
        assert(a.all =~= Seq::<DebtorView>::empty());
        assert(content(a).by_phone =~= no_content().by_phone);
        assert(content(a) =~= no_content());
        lemma_plus(content(b), no_content(), no_content());
    }
}

} // verus!
