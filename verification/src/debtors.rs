//! The graph of debtors: records that share a phone are folded into one node.
//!
//! A record goes to the node of the first of its phones that is known, or to
//! a new node where none is known. The node takes the record's company, all
//! its phones and its debt, and every phone of the record then points to that
//! node. A phone that pointed to another node before is claimed for the node
//! chosen; the other node is left as it is.
//!
//! A set of a node is a hash set beside the list of its members, which keeps
//! them in the order in which they came, each once: a hash set cannot be
//! walked in an order that is the same in every process. A node's debt is
//! kept as the list of the amounts it took up.

use crate::extract::{extract_data, extracted, texts, Debt, DebtRec, DebtRecView};
use crate::json::Json;
use vstd::hash_map::StringHashMap;
use vstd::hash_set::StringHashSet;
use vstd::prelude::*;

verus! {

/// A node in contracts.
pub struct DebtorView {
    /// The companies, each once, in the order in which they came.
    pub companies: Seq<Seq<char>>,
    /// The phones, each once, in the order in which they came.
    pub phones: Seq<Seq<char>>,
    /// The amounts taken up, in the order in which they came.
    pub debts: Seq<Debt>,
}

/// A graph in contracts.
pub struct DebtorsView {
    /// The nodes in the order in which they were made.
    pub all: Seq<DebtorView>,
    /// For each phone seen, the position of the node that it points to.
    pub index_by_phone: Map<Seq<char>, usize>,
}

/// A node that has taken up nothing.
pub open spec fn empty_debtor() -> DebtorView {
    DebtorView { companies: Seq::empty(), phones: Seq::empty(), debts: Seq::empty() }
}

/// A graph without nodes.
pub open spec fn empty_debtors() -> DebtorsView {
    DebtorsView { all: Seq::empty(), index_by_phone: Map::empty() }
}

/// The node that the first known phone among `phones[from..]` points to.
pub open spec fn first_match_from(
    index: Map<Seq<char>, usize>,
    phones: Seq<Seq<char>>,
    from: int,
) -> Option<usize>
    decreases phones.len() - from,
{
    if from < 0 || from >= phones.len() {
        None
    } else if index.contains_key(phones[from]) {
        Some(index[phones[from]])
    } else {
        first_match_from(index, phones, from + 1)
    }
}

/// The node that the first known phone among `phones` points to.
pub open spec fn first_match(index: Map<Seq<char>, usize>, phones: Seq<Seq<char>>) -> Option<
    usize,
> {
    first_match_from(index, phones, 0)
}

/// The set `s` with `x` in it: `x` comes last where it is new.
pub open spec fn with_item(s: Seq<Seq<char>>, x: Seq<char>) -> Seq<Seq<char>> {
    if s.contains(x) {
        s
    } else {
        s.push(x)
    }
}

/// The set `s` with every member of `xs` in it, taken in one after the other.
pub open spec fn with_items(s: Seq<Seq<char>>, xs: Seq<Seq<char>>) -> Seq<Seq<char>>
    decreases xs.len(),
{
    if xs.len() == 0 {
        s
    } else {
        with_item(with_items(s, xs.drop_last()), xs.last())
    }
}

/// The index with every phone of `phones` pointing to `target`.
pub open spec fn pointed(index: Map<Seq<char>, usize>, phones: Seq<Seq<char>>, target: usize) -> Map<
    Seq<char>,
    usize,
>
    decreases phones.len(),
{
    if phones.len() == 0 {
        index
    } else {
        pointed(index, phones.drop_last(), target).insert(phones.last(), target)
    }
}

/// The position of the node that takes up something with these phones: that
/// of the first match, or that of a new node at the end.
pub open spec fn target_of(g: DebtorsView, phones: Seq<Seq<char>>) -> int {
    match first_match(g.index_by_phone, phones) {
        Some(t) => t as int,
        None => g.all.len() as int,
    }
}

/// The nodes of `g`, with a new empty node at the end where no phone of
/// `phones` is known.
pub open spec fn with_target(g: DebtorsView, phones: Seq<Seq<char>>) -> Seq<DebtorView> {
    if first_match(g.index_by_phone, phones) is Some {
        g.all
    } else {
        g.all.push(empty_debtor())
    }
}

/// The graph `g` after it took up companies, phones and debts that belong
/// together.
pub open spec fn absorbed(
    g: DebtorsView,
    companies: Seq<Seq<char>>,
    phones: Seq<Seq<char>>,
    debts: Seq<Debt>,
) -> DebtorsView {
    let target = target_of(g, phones);
    let base = with_target(g, phones);
    let node = base[target];
    DebtorsView {
        all: base.update(
            target,
            DebtorView {
                companies: with_items(node.companies, companies),
                phones: with_items(node.phones, phones),
                debts: node.debts + debts,
            },
        ),
        index_by_phone: pointed(g.index_by_phone, phones, target as usize),
    }
}

/// The graph `g` after it took up one record.
pub open spec fn inserted(g: DebtorsView, dr: DebtRecView) -> DebtorsView {
    absorbed(g, seq![dr.company], dr.phones, seq![dr.debt])
}

/// The graph `g` after it took up a list of records, one after the other.
pub open spec fn inserted_all(g: DebtorsView, records: Seq<DebtRecView>) -> DebtorsView
    decreases records.len(),
{
    if records.len() == 0 {
        g
    } else {
        inserted(inserted_all(g, records.drop_last()), records.last())
    }
}

/// The graph `g` after it took up a list of nodes, one after the other, each
/// as if it were one record with many companies.
pub open spec fn merged(g: DebtorsView, nodes: Seq<DebtorView>) -> DebtorsView
    decreases nodes.len(),
{
    if nodes.len() == 0 {
        g
    } else {
        let before = merged(g, nodes.drop_last());
        let node = nodes.last();
        absorbed(before, node.companies, node.phones, node.debts)
    }
}

/// Every phone that the index knows is a phone of the node that it points
/// to.
pub open spec fn index_sound(g: DebtorsView) -> bool {
    forall|p: Seq<char>| #[trigger]
        g.index_by_phone.contains_key(p) ==> g.index_by_phone[p] < g.all.len()
            && g.all[g.index_by_phone[p] as int].phones.contains(p)
}

/// Every phone of every node points to that node.
pub open spec fn index_exact(g: DebtorsView) -> bool {
    forall|i: int, p: Seq<char>|
        0 <= i < g.all.len() && #[trigger] g.all[i].phones.contains(p)
            ==> g.index_by_phone.contains_key(p) && g.index_by_phone[p] == i
}

/// What holds of every graph: the index is sound, it knows every phone of
/// every node, and no node holds a phone or a company twice.
pub open spec fn well_formed(g: DebtorsView) -> bool {
    &&& index_sound(g)
    &&& forall|i: int, p: Seq<char>|
        0 <= i < g.all.len() && #[trigger] g.all[i].phones.contains(p)
            ==> g.index_by_phone.contains_key(p)
    &&& forall|i: int|
        0 <= i < g.all.len() ==> (#[trigger] g.all[i]).phones.no_duplicates()
            && g.all[i].companies.no_duplicates()
}

/// The phones of a record lead to one node at most: those of them that the
/// index knows all point to the same node.
pub open spec fn single_minded(g: DebtorsView, phones: Seq<Seq<char>>) -> bool {
    forall|i: int, j: int|
        0 <= i < phones.len() && 0 <= j < phones.len() && g.index_by_phone.contains_key(
            #[trigger] phones[i],
        ) && g.index_by_phone.contains_key(#[trigger] phones[j])
            ==> g.index_by_phone[phones[i]] == g.index_by_phone[phones[j]]
}

/// What a set holds after it took members in: what it held, and the members.
pub proof fn lemma_with_items(s: Seq<Seq<char>>, xs: Seq<Seq<char>>)
    ensures
        forall|x: Seq<char>|
            #[trigger] with_items(s, xs).contains(x) <==> s.contains(x) || xs.contains(x),
        s.no_duplicates() ==> with_items(s, xs).no_duplicates(),
        s.len() <= with_items(s, xs).len(),
        forall|i: int| 0 <= i < s.len() ==> with_items(s, xs)[i] == s[i],
    decreases xs.len(),
{
    if xs.len() == 0 {
    } else {
        let before = with_items(s, xs.drop_last());
        let x0 = xs.last();
        lemma_with_items(s, xs.drop_last());
        let after = with_item(before, x0);
        assert forall|x: Seq<char>| #[trigger]
            after.contains(x) <==> s.contains(x) || xs.contains(x) by {
            if after.contains(x) {
                let k = choose|k: int| 0 <= k < after.len() && after[k] == x;
                if k < before.len() {
                    assert(before[k] == x);
                    assert(before.contains(x));
                    if !s.contains(x) {
                        assert(xs.drop_last().contains(x));
                        let m = choose|m: int|
                            0 <= m < xs.drop_last().len() && xs.drop_last()[m] == x;
                        assert(xs[m] == x);
                    }
                } else {
                    assert(x == x0);
                    assert(xs[xs.len() - 1] == x);
                }
            }
            if s.contains(x) {
                assert(before.contains(x));
                let k = choose|k: int| 0 <= k < before.len() && before[k] == x;
                assert(after[k] == x);
            }
            if xs.contains(x) {
                let m = choose|m: int| 0 <= m < xs.len() && xs[m] == x;
                if m < xs.len() - 1 {
                    assert(xs.drop_last()[m] == x);
                    assert(xs.drop_last().contains(x));
                    assert(before.contains(x));
                    let k = choose|k: int| 0 <= k < before.len() && before[k] == x;
                    assert(after[k] == x);
                } else {
                    if before.contains(x0) {
                    } else {
                        assert(after[before.len() as int] == x0);
                    }
                }
            }
        }
        if s.no_duplicates() {
            assert(after.no_duplicates());
        }
    }
}

/// What the index holds after phones were pointed to a node: each of them
/// points to that node, and every other phone points where it did.
pub proof fn lemma_pointed(index: Map<Seq<char>, usize>, phones: Seq<Seq<char>>, target: usize)
    ensures
        forall|p: Seq<char>|
            #[trigger] pointed(index, phones, target).contains_key(p) <==> index.contains_key(p)
                || phones.contains(p),
        forall|p: Seq<char>|
            phones.contains(p) ==> #[trigger] pointed(index, phones, target)[p] == target,
        forall|p: Seq<char>|
            !phones.contains(p) ==> #[trigger] pointed(index, phones, target)[p] == index[p],
    decreases phones.len(),
{
    if phones.len() == 0 {
    } else {
        lemma_pointed(index, phones.drop_last(), target);
        let before = pointed(index, phones.drop_last(), target);
        let after = pointed(index, phones, target);
        assert forall|p: Seq<char>|
            (after.contains_key(p) <==> index.contains_key(p) || phones.contains(p)) && (
            phones.contains(p) ==> after[p] == target) && (!phones.contains(p) ==> after[p]
                == index[p]) by {
            if p == phones.last() {
                assert(phones[phones.len() - 1] == p);
            } else {
                if phones.contains(p) {
                    let m = choose|m: int| 0 <= m < phones.len() && phones[m] == p;
                    assert(phones.drop_last()[m] == p);
                    assert(phones.drop_last().contains(p));
                }
                if phones.drop_last().contains(p) {
                    let m = choose|m: int|
                        0 <= m < phones.drop_last().len() && phones.drop_last()[m] == p;
                    assert(phones[m] == p);
                }
                assert(before.contains_key(p) == after.contains_key(p));
                assert(before[p] == after[p]);
            }
        }
    }
}

/// What the first match is: there is one exactly where some phone is known,
/// and it is what a known phone points to, with no known phone before it.
pub proof fn lemma_first_match(index: Map<Seq<char>, usize>, phones: Seq<Seq<char>>, from: int)
    requires
        0 <= from <= phones.len(),
    ensures
        first_match_from(index, phones, from) is None <==> forall|k: int|
            from <= k < phones.len() ==> !index.contains_key(#[trigger] phones[k]),
        first_match_from(index, phones, from) matches Some(t) ==> exists|k: int|
            from <= k < phones.len() && index.contains_key(#[trigger] phones[k]) && index[phones[k]]
                == t,
    decreases phones.len() - from,
{
    if from < phones.len() {
        lemma_first_match(index, phones, from + 1);
        if index.contains_key(phones[from]) {
        } else {
            assert forall|k: int| from <= k < phones.len() && first_match_from(
                index,
                phones,
                from,
            ) is None implies !index.contains_key(#[trigger] phones[k]) by {
                if k > from {
                }
            }
        }
    }
}

/// Taking something up keeps a graph well formed.
pub proof fn lemma_absorbed_well_formed(
    g: DebtorsView,
    companies: Seq<Seq<char>>,
    phones: Seq<Seq<char>>,
    debts: Seq<Debt>,
)
    requires
        well_formed(g),
        g.all.len() <= usize::MAX,
    ensures
        well_formed(absorbed(g, companies, phones, debts)),
        0 <= target_of(g, phones) < with_target(g, phones).len(),
        absorbed(g, companies, phones, debts).all.len() == with_target(g, phones).len(),
{
    let after = absorbed(g, companies, phones, debts);
    let target = target_of(g, phones);
    let base = with_target(g, phones);
    let node = base[target];
    lemma_first_match(g.index_by_phone, phones, 0);
    lemma_with_items(node.companies, companies);
    lemma_with_items(node.phones, phones);
    lemma_pointed(g.index_by_phone, phones, target as usize);
    assert(0 <= target < base.len());
    assert(node.phones.no_duplicates() && node.companies.no_duplicates());
    assert forall|p: Seq<char>| #[trigger] after.index_by_phone.contains_key(p) implies after.index_by_phone[p]
        < after.all.len() && after.all[after.index_by_phone[p] as int].phones.contains(p) by {
        if phones.contains(p) {
            assert(after.all[target].phones.contains(p));
        } else {
            assert(g.index_by_phone.contains_key(p));
            let u = g.index_by_phone[p] as int;
            assert(g.all[u].phones.contains(p));
            if u == target {
                assert(node.phones.contains(p));
                assert(after.all[target].phones.contains(p));
            } else {
                assert(after.all[u] == g.all[u]);
            }
        }
    }
    assert forall|i: int, p: Seq<char>|
        0 <= i < after.all.len() && #[trigger] after.all[i].phones.contains(
            p,
        ) implies after.index_by_phone.contains_key(p) by {
        if i == target {
            if node.phones.contains(p) {
                if target < g.all.len() {
                    assert(g.all[target].phones.contains(p));
                }
            }
        } else {
            assert(after.all[i] == g.all[i]);
            assert(g.all[i].phones.contains(p));
        }
    }
    assert forall|i: int| 0 <= i < after.all.len() implies (#[trigger] after.all[i]).phones.no_duplicates()
        && after.all[i].companies.no_duplicates() by {
        if i != target {
            assert(after.all[i] == g.all[i]);
        }
    }
}

/// Where the phones of what is taken up lead to one node at most, an index
/// that was exact stays exact.
pub proof fn lemma_absorbed_exact(
    g: DebtorsView,
    companies: Seq<Seq<char>>,
    phones: Seq<Seq<char>>,
    debts: Seq<Debt>,
)
    requires
        well_formed(g),
        index_exact(g),
        single_minded(g, phones),
        g.all.len() <= usize::MAX,
    ensures
        index_exact(absorbed(g, companies, phones, debts)),
{
    let after = absorbed(g, companies, phones, debts);
    let target = target_of(g, phones);
    let base = with_target(g, phones);
    let node = base[target];
    lemma_first_match(g.index_by_phone, phones, 0);
    lemma_with_items(node.phones, phones);
    lemma_pointed(g.index_by_phone, phones, target as usize);
    lemma_absorbed_well_formed(g, companies, phones, debts);
    assert forall|i: int, p: Seq<char>|
        0 <= i < after.all.len() && #[trigger] after.all[i].phones.contains(
            p,
        ) implies after.index_by_phone.contains_key(p) && after.index_by_phone[p] == i by {
        if i == target {
            if !phones.contains(p) {
                assert(node.phones.contains(p));
                assert(target < g.all.len());
                assert(g.all[target].phones.contains(p));
            }
        } else {
            assert(after.all[i] == g.all[i]);
            assert(g.all[i].phones.contains(p));
            assert(g.index_by_phone[p] == i);
            if phones.contains(p) {
                let k = choose|k: int| 0 <= k < phones.len() && phones[k] == p;
                assert(g.index_by_phone.contains_key(phones[k]));
                let hit = first_match(g.index_by_phone, phones);
                assert(hit is Some);
                let m = choose|m: int|
                    0 <= m < phones.len() && g.index_by_phone.contains_key(#[trigger] phones[m])
                        && g.index_by_phone[phones[m]] == hit->0;
                assert(g.index_by_phone[phones[k]] == g.index_by_phone[phones[m]]);
                assert(false);
            }
        }
    }
}


/// A set of texts that keeps its members in the order in which they came: a
/// hash set answers whether a text is a member, a list holds the members to
/// walk through.
pub struct TextSet {
    items: Vec<String>,
    held: StringHashSet,
}

impl View for TextSet {
    type V = Seq<Seq<char>>;

    closed spec fn view(&self) -> Seq<Seq<char>> {
        texts(self.items@)
    }
}

impl TextSet {
    /// The hash set holds the members of the list and nothing else.
    pub closed spec fn wf(&self) -> bool {
        self.held@ == texts(self.items@).to_set()
    }

    /// The set without members.
    pub fn new() -> (s: TextSet)
        ensures
            s.wf(),
            s@ == Seq::<Seq<char>>::empty(),
    {
        let s = TextSet { items: Vec::new(), held: StringHashSet::new() };
        assert(texts(s.items@) =~= Seq::<Seq<char>>::empty());
        assert(s.held@ =~= texts(s.items@).to_set());
        s
    }

    /// Whether `x` is a member.
    pub fn contains(&self, x: &str) -> (found: bool)
        requires
            self.wf(),
        ensures
            found == self@.contains(x@),
    {
        self.held.contains(x)
    }

    /// Puts `x` into the set unless it is there.
    pub fn insert(&mut self, x: String)
        requires
            old(self).wf(),
        ensures
            final(self).wf(),
            final(self)@ == with_item(old(self)@, x@),
    {
        if !self.held.contains(x.as_str()) {
            proof {
                texts(self.items@).lemma_push_to_set_commute(x@);
            }
            self.held.insert(x.clone());
            self.items.push(x);
            assert(texts(self.items@) =~= texts(old(self).items@).push(x@));
        }
    }

    /// Puts every member of `xs` into the set, one after the other.
    pub fn insert_all(&mut self, xs: &Vec<String>)
        requires
            old(self).wf(),
        ensures
            final(self).wf(),
            final(self)@ == with_items(old(self)@, texts(xs@)),
    {
        let mut i: usize = 0;
        assert(texts(xs@).take(0) =~= Seq::<Seq<char>>::empty());
        while i < xs.len()
            invariant
                i <= xs@.len(),
                self.wf(),
                self@ == with_items(old(self)@, texts(xs@).take(i as int)),
            decreases xs@.len() - i,
        {
            self.insert(xs[i].clone());
            i += 1;
            assert(texts(xs@).take(i as int).drop_last() =~= texts(xs@).take(i - 1));
            assert(texts(xs@).take(i as int).last() == xs@[i - 1]@);
        }
        assert(texts(xs@).take(i as int) =~= texts(xs@));
    }

    /// The members, each once, in the order in which they came.
    pub fn items(&self) -> (v: &Vec<String>)
        ensures
            texts(v@) == self@,
    {
        &self.items
    }

    /// The members as a list of their own.
    pub fn into_items(self) -> (v: Vec<String>)
        ensures
            texts(v@) == self@,
    {
        self.items
    }
}

/// One node of the graph: the companies, the phones and the debts of the
/// records that were folded into it.
pub struct Debtor {
    companies: TextSet,
    phones: TextSet,
    debts: Vec<Debt>,
}

impl View for Debtor {
    type V = DebtorView;

    closed spec fn view(&self) -> DebtorView {
        DebtorView { companies: self.companies@, phones: self.phones@, debts: self.debts@ }
    }
}

/// The graph: the nodes, and for each phone the node that it points to.
pub struct Debtors {
    all: Vec<Debtor>,
    index_by_phone: StringHashMap<usize>,
}

/// The views of a list of nodes.
pub open spec fn node_views(all: Seq<Debtor>) -> Seq<DebtorView> {
    Seq::new(all.len(), |i: int| all[i]@)
}

impl View for Debtors {
    type V = DebtorsView;

    closed spec fn view(&self) -> DebtorsView {
        DebtorsView { all: node_views(self.all@), index_by_phone: self.index_by_phone@ }
    }
}

/// Points every phone of `phones` to `target`.
fn point_all(index: &mut StringHashMap<usize>, phones: &Vec<String>, target: usize)
    ensures
        final(index)@ == pointed(old(index)@, texts(phones@), target),
{
    let mut i: usize = 0;
    assert(texts(phones@).take(0) =~= Seq::<Seq<char>>::empty());
    while i < phones.len()
        invariant
            i <= phones@.len(),
            index@ == pointed(old(index)@, texts(phones@).take(i as int), target),
        decreases phones@.len() - i,
    {
        index.insert(phones[i].clone(), target);
        i += 1;
        assert(texts(phones@).take(i as int).drop_last() =~= texts(phones@).take(i - 1));
        assert(texts(phones@).take(i as int).last() == phones@[i - 1]@);
    }
    assert(texts(phones@).take(i as int) =~= texts(phones@));
}

impl Debtor {
    /// A node that has taken up nothing.
    pub fn new() -> (d: Debtor)
        ensures
            d.wf(),
            d@ == empty_debtor(),
    {
        Debtor { companies: TextSet::new(), phones: TextSet::new(), debts: Vec::new() }
    }

    /// Both sets of the node are in order.
    pub closed spec fn wf(&self) -> bool {
        self.companies.wf() && self.phones.wf()
    }

    /// The companies, each once, in the order in which they came.
    pub fn companies(&self) -> (v: &Vec<String>)
        ensures
            texts(v@) == self@.companies,
    {
        self.companies.items()
    }

    /// The phones, each once, in the order in which they came.
    pub fn phones(&self) -> (v: &Vec<String>)
        ensures
            texts(v@) == self@.phones,
    {
        self.phones.items()
    }

    /// Whether `company` is one of the node's companies.
    pub fn has_company(&self, company: &str) -> (found: bool)
        requires
            self.wf(),
        ensures
            found == self@.companies.contains(company@),
    {
        self.companies.contains(company)
    }

    /// Whether `phone` is one of the node's phones.
    pub fn has_phone(&self, phone: &str) -> (found: bool)
        requires
            self.wf(),
        ensures
            found == self@.phones.contains(phone@),
    {
        self.phones.contains(phone)
    }

    /// The amounts taken up, in the order in which they came.
    pub fn debts(&self) -> (v: &Vec<Debt>)
        ensures
            v@ == self@.debts,
    {
        &self.debts
    }
}

impl Debtors {
    /// What holds of every graph that this library hands out.
    pub open spec fn wf(&self) -> bool {
        well_formed(self@) && self.nodes_wf()
    }

    /// Every node's sets are in order.
    pub closed spec fn nodes_wf(&self) -> bool {
        forall|i: int| 0 <= i < self.all@.len() ==> (#[trigger] self.all@[i]).wf()
    }

    /// A graph without nodes.
    pub fn new() -> (g: Debtors)
        ensures
            g.wf(),
            g@ == empty_debtors(),
    {
        let g = Debtors { all: Vec::new(), index_by_phone: StringHashMap::new() };
        assert(g@.all =~= Seq::<DebtorView>::empty());
        g
    }

    /// The number of nodes.
    pub fn len(&self) -> (n: usize)
        ensures
            n == self@.all.len(),
    {
        self.all.len()
    }

    /// The nodes in the order in which they were made. In a graph that is in
    /// order every node is.
    pub fn all(&self) -> (v: &Vec<Debtor>)
        ensures
            node_views(v@) == self@.all,
            self.wf() ==> forall|i: int| 0 <= i < v@.len() ==> (#[trigger] v@[i]).wf(),
    {
        &self.all
    }

    /// The position of the node that `phone` points to, if the phone is
    /// known.
    pub fn find(&self, phone: &str) -> (found: Option<usize>)
        ensures
            found == if self@.index_by_phone.contains_key(phone@) {
                Some(self@.index_by_phone[phone@])
            } else {
                None
            },
    {
        match self.index_by_phone.get(phone) {
            Some(i) => Some(*i),
            None => None,
        }
    }

    /// The node that the first known phone among `phones` points to.
    fn first_match(&self, phones: &Vec<String>) -> (found: Option<usize>)
        ensures
            found == first_match(self@.index_by_phone, texts(phones@)),
    {
        let mut i: usize = 0;
        while i < phones.len()
            invariant
                i <= phones@.len(),
                first_match(self@.index_by_phone, texts(phones@)) == first_match_from(
                    self@.index_by_phone,
                    texts(phones@),
                    i as int,
                ),
            decreases phones@.len() - i,
        {
            assert(texts(phones@)[i as int] == phones@[i as int]@);
            match self.index_by_phone.get(phones[i].as_str()) {
                Some(t) => {
                    return Some(*t);
                },
                None => {},
            }
            i += 1;
        }
        None
    }

    /// Takes up companies, phones and debts that belong together: they go to
    /// the node of the first known phone, or to a new node.
    fn absorb(&mut self, companies: Vec<String>, phones: Vec<String>, debts: Vec<Debt>)
        requires
            old(self).wf(),
        ensures
            final(self).wf(),
            final(self)@ == absorbed(old(self)@, texts(companies@), texts(phones@), debts@),
    {
        let ghost before = self@;
        proof {
            assert(before.all.len() == self.all.len());
            lemma_absorbed_well_formed(before, texts(companies@), texts(phones@), debts@);
        }
        let di = match self.first_match(&phones) {
            Some(i) => i,
            None => {
                self.all.push(Debtor::new());
                self.all.len() - 1
            },
        };
        assert(node_views(self.all@) =~= with_target(before, texts(phones@)));
        assert(di == target_of(before, texts(phones@)));
        let ghost base = self.all@;
        assert(base[di as int].wf());
        let node = &mut self.all[di];
        node.companies.insert_all(&companies);
        node.phones.insert_all(&phones);
        let ghost amounts = debts@;
        let mut debts = debts;
        node.debts.append(&mut debts);
        point_all(&mut self.index_by_phone, &phones, di);
        assert(node_views(self.all@) =~= absorbed(
            before,
            texts(companies@),
            texts(phones@),
            amounts,
        ).all) by {
            assert(self.all@ == base.update(di as int, self.all@[di as int]));
        }
        assert(self.nodes_wf()) by {
            assert(self.all@ == base.update(di as int, self.all@[di as int]));
        }
    }

    /// Takes up one record.
    pub fn insert(&mut self, dr: DebtRec)
        requires
            old(self).wf(),
        ensures
            final(self).wf(),
            final(self)@ == inserted(old(self)@, dr@),
    {
        let mut companies: Vec<String> = Vec::new();
        companies.push(dr.company);
        let mut debts: Vec<Debt> = Vec::new();
        debts.push(dr.debt);
        assert(texts(companies@) =~= seq![dr.company@]);
        assert(debts@ =~= seq![dr.debt]);
        self.absorb(companies, dr.phones, debts);
    }
}

/// Reads one parsed record and folds it into `result`. A value that is no
/// object is no record: it is dropped, and `result` stays as it is.
pub fn process_object(o: &Json, result: &mut Debtors)
    requires
        old(result).wf(),
    ensures
        final(result).wf(),
        final(result)@ == if *o is Object {
            inserted(old(result)@, extracted(*o))
        } else {
            old(result)@
        },
{
    match o {
        Json::Object { .. } => {
            let dr = extract_data(o);
            result.insert(dr);
        },
        _ => {},
    }
}

/// Folds every node of `part` into `result`, in the order of `part`: each node
/// goes to the node of `result` that the first known of its phones points to,
/// or becomes a new node, and brings all its companies, phones and debts.
pub fn merge_result(part: Debtors, result: &mut Debtors)
    requires
        old(result).wf(),
    ensures
        final(result).wf(),
        final(result)@ == merged(old(result)@, part@.all),
{
    let mut part = part;
    let ghost nodes = part@.all;
    let mut i: usize = 0;
    assert(nodes.take(0) =~= Seq::<DebtorView>::empty());
    while i < part.all.len()
        invariant
            i <= part.all@.len(),
            nodes.len() == part.all@.len(),
            forall|j: int| i <= j < nodes.len() ==> part.all@[j]@ == nodes[j],
            result.wf(),
            result@ == merged(old(result)@, nodes.take(i as int)),
        decreases part.all@.len() - i,
    {
        let mut node = Debtor::new();
        core::mem::swap(&mut node, &mut part.all[i]);
        assert(node@ == nodes[i as int]);
        result.absorb(node.companies.into_items(), node.phones.into_items(), node.debts);
        i += 1;
        assert(nodes.take(i as int).drop_last() =~= nodes.take(i - 1));
        assert(nodes.take(i as int).last() == nodes[i - 1]);
    }
    assert(nodes.take(i as int) =~= nodes);
}

/// Adds the partial graph of one worker or one file to the running result:
/// the first partial graph becomes the result as it is, and every later one
/// is merged into it.
pub fn fold_result(part: Debtors, result: &mut Debtors)
    requires
        old(result).wf(),
        part.wf(),
    ensures
        final(result).wf(),
        final(result)@ == if old(result)@.all.len() == 0 {
            part@
        } else {
            merged(old(result)@, part@.all)
        },
{
    if result.len() == 0 {
        *result = part;
    } else {
        merge_result(part, result);
    }
}

} // verus!
