use jsonparse::debtors::{fold_result, merge_result, process_object, Debtor, Debtors};
use jsonparse::extract::{Debt, DebtRec};
use jsonparse::json::parse;

fn amount(debt: &Debt) -> f64 {
    match debt {
        Debt::Number(text) => text.parse().unwrap_or(0.0),
        Debt::Text(text) => text.parse().unwrap_or(0.0),
        Debt::Zero => 0.0,
    }
}

fn total(node: &Debtor) -> f64 {
    node.debts().iter().map(amount).sum()
}

fn rec(company: &str, phones: &[&str], debt: &str) -> DebtRec {
    DebtRec {
        company: company.to_string(),
        phones: phones.iter().map(|p| p.to_string()).collect(),
        debt: Debt::Number(debt.to_string()),
    }
}

fn graph(records: Vec<DebtRec>) -> Debtors {
    let mut g = Debtors::new();
    for r in records {
        g.insert(r);
    }
    g
}

fn sorted(v: &Vec<String>) -> Vec<String> {
    let mut v = v.clone();
    v.sort();
    v
}

fn summaries(g: &Debtors) -> Vec<(Vec<String>, Vec<String>, Vec<String>)> {
    let mut out: Vec<(Vec<String>, Vec<String>, Vec<String>)> = g
        .all()
        .iter()
        .map(|n| {
            let mut debts: Vec<String> = n.debts().iter().map(|d| format!("{:?}", d)).collect();
            debts.sort();
            (sorted(n.companies()), sorted(n.phones()), debts)
        })
        .collect();
    out.sort();
    out
}

fn index_is_sound(g: &Debtors) -> bool {
    g.all().iter().all(|n| {
        n.phones().iter().all(|p| match g.find(p) {
            Some(i) => i < g.len() && g.all()[i].phones().contains(p),
            None => false,
        })
    })
}

fn index_is_exact(g: &Debtors) -> bool {
    g.all().iter().enumerate().all(|(i, n)| n.phones().iter().all(|p| g.find(p) == Some(i)))
}

#[test]
fn new_graph_is_empty() {
    let g = Debtors::new();
    assert_eq!(g.len(), 0);
    assert!(g.all().is_empty());
    assert_eq!(g.find("1"), None);
}

#[test]
fn records_sharing_a_phone_land_in_one_node() {
    let mut g = Debtors::new();
    let a = parse(b"{\"company\":\"Acme\",\"phones\":[\"1\",\"2\"],\"debt\":10}").unwrap();
    let b = parse(b"{\"company\":\"Beta\",\"phone\":\"2\",\"debt\":5}").unwrap();
    process_object(&a, &mut g);
    process_object(&b, &mut g);
    assert_eq!(g.len(), 1);
    let node = &g.all()[0];
    assert_eq!(node.companies(), &vec!["Acme".to_string(), "Beta".to_string()]);
    assert_eq!(node.phones(), &vec!["1".to_string(), "2".to_string()]);
    assert_eq!(total(node), 15.0);
    assert_eq!(g.find("1"), Some(0));
    assert_eq!(g.find("2"), Some(0));
}

#[test]
fn records_with_other_phones_make_two_nodes() {
    let mut g = Debtors::new();
    let a = parse(b"{\"company\":\"A\",\"phones\":[\"x\"],\"debt\":1}").unwrap();
    let b = parse(b"{\"company\":\"B\",\"phones\":[\"y\"],\"debt\":2}").unwrap();
    process_object(&a, &mut g);
    process_object(&b, &mut g);
    assert_eq!(g.len(), 2);
    assert_eq!(g.all()[0].phones(), &vec!["x".to_string()]);
    assert_eq!(g.all()[1].phones(), &vec!["y".to_string()]);
    assert_eq!(total(&g.all()[0]) + total(&g.all()[1]), 3.0);
    assert_eq!(g.find("x"), Some(0));
    assert_eq!(g.find("y"), Some(1));
}

#[test]
fn company_object_and_debt_string_make_one_node() {
    let mut g = Debtors::new();
    let a = parse(b"{\"company\":{\"name\":\"X\"},\"phone\":\"p\",\"debt\":\"2.5\"}").unwrap();
    process_object(&a, &mut g);
    assert_eq!(g.len(), 1);
    assert_eq!(g.all()[0].companies(), &vec!["X".to_string()]);
    assert_eq!(g.all()[0].phones(), &vec!["p".to_string()]);
    assert_eq!(total(&g.all()[0]), 2.5);
}

#[test]
fn a_value_that_is_no_object_is_dropped() {
    let mut g = Debtors::new();
    let a = parse(b"{\"company\":\"A\",\"phones\":[\"x\"],\"debt\":1}").unwrap();
    process_object(&a, &mut g);
    for text in ["[1,2]", "7", "\"x\"", "null", "true"] {
        let v = parse(text.as_bytes()).unwrap();
        process_object(&v, &mut g);
    }
    assert_eq!(g.len(), 1);
    assert_eq!(g.all()[0].companies(), &vec!["A".to_string()]);
    assert_eq!(g.all()[0].debts().len(), 1);
    assert_eq!(g.find("x"), Some(0));
    assert_eq!(g.find("7"), None);
}

#[test]
fn record_without_phones_makes_a_node_of_its_own() {
    let g = graph(vec![rec("A", &[], "1"), rec("B", &[], "2")]);
    assert_eq!(g.len(), 2);
    assert!(g.all()[0].phones().is_empty());
    assert_eq!(g.all()[1].companies(), &vec!["B".to_string()]);
}

#[test]
fn a_company_and_a_phone_are_held_once() {
    let g = graph(vec![rec("A", &["1", "1", "2"], "1"), rec("A", &["2", "1"], "2")]);
    assert_eq!(g.len(), 1);
    assert_eq!(g.all()[0].companies(), &vec!["A".to_string()]);
    assert_eq!(g.all()[0].phones(), &vec!["1".to_string(), "2".to_string()]);
    assert_eq!(g.all()[0].debts().len(), 2);
}

#[test]
fn first_known_phone_chooses_the_node() {
    let g = graph(vec![rec("A", &["1"], "1"), rec("B", &["2"], "2"), rec("C", &["9", "2", "1"], "4")]);
    assert_eq!(g.len(), 2);
    assert_eq!(g.all()[1].companies(), &vec!["B".to_string(), "C".to_string()]);
    assert_eq!(g.all()[1].phones(), &vec!["2".to_string(), "9".to_string(), "1".to_string()]);
    assert_eq!(g.all()[0].phones(), &vec!["1".to_string()]);
    assert_eq!(g.find("1"), Some(1));
    assert_eq!(g.find("9"), Some(1));
}

#[test]
fn index_stays_sound_when_a_record_leads_to_two_nodes() {
    let g = graph(vec![rec("A", &["1"], "1"), rec("B", &["2"], "2"), rec("C", &["1", "2"], "4")]);
    assert_eq!(g.len(), 2);
    for p in ["1", "2"] {
        let i = g.find(p).unwrap();
        assert!(g.all()[i].phones().contains(&p.to_string()));
    }
    assert!(g.all()[1].phones().contains(&"2".to_string()));
    assert_eq!(g.find("2"), Some(0));
    assert!(!index_is_exact(&g));
}

#[test]
fn index_is_sound_and_exact_without_such_records() {
    let g = graph(vec![
        rec("A", &["1", "2"], "1"),
        rec("B", &["3"], "2"),
        rec("C", &["2", "4"], "4"),
        rec("D", &["5", "3"], "8"),
        rec("E", &[], "16"),
    ]);
    assert_eq!(g.len(), 3);
    assert!(index_is_sound(&g));
    assert!(index_is_exact(&g));
}

#[test]
fn debts_are_conserved() {
    let records = vec![
        rec("A", &["1"], "1.5"),
        rec("B", &["2"], "2.25"),
        rec("C", &["1", "2"], "4"),
        rec("D", &[], "8"),
        rec("E", &["2"], "16"),
    ];
    let g = graph(records);
    let held: usize = g.all().iter().map(|n| n.debts().len()).sum();
    assert_eq!(held, 5);
    let sum: f64 = g.all().iter().map(total).sum();
    assert!((sum - 31.75).abs() <= 1e-9 * 31.75);
}

#[test]
fn merge_folds_each_node_into_the_node_of_its_first_known_phone() {
    let mut result = graph(vec![rec("A", &["1"], "1"), rec("B", &["2"], "2")]);
    let part = graph(vec![rec("C", &["3", "2"], "4"), rec("D", &["5"], "8"), rec("E", &["3"], "16")]);
    assert_eq!(part.len(), 2);
    merge_result(part, &mut result);
    assert_eq!(result.len(), 3);
    assert_eq!(result.all()[0].companies(), &vec!["A".to_string()]);
    assert_eq!(
        result.all()[1].companies(),
        &vec!["B".to_string(), "C".to_string(), "E".to_string()]
    );
    assert_eq!(result.all()[1].phones(), &vec!["2".to_string(), "3".to_string()]);
    assert_eq!(total(&result.all()[1]), 22.0);
    assert_eq!(result.all()[2].companies(), &vec!["D".to_string()]);
    assert_eq!(result.find("3"), Some(1));
    assert_eq!(result.find("5"), Some(2));
    assert!(index_is_sound(&result));
}

#[test]
fn merge_into_an_empty_graph_copies_the_nodes() {
    let mut result = Debtors::new();
    let part = graph(vec![rec("A", &["1"], "1"), rec("B", &["2"], "2")]);
    merge_result(part, &mut result);
    assert_eq!(result.len(), 2);
    assert_eq!(result.find("2"), Some(1));
}

#[test]
fn first_partial_graph_becomes_the_result() {
    let mut result = Debtors::new();
    fold_result(graph(vec![rec("A", &["1"], "1")]), &mut result);
    assert_eq!(result.len(), 1);
    fold_result(graph(vec![rec("B", &["1"], "2"), rec("C", &["7"], "3")]), &mut result);
    assert_eq!(result.len(), 2);
    assert_eq!(result.all()[0].companies(), &vec!["A".to_string(), "B".to_string()]);
    assert_eq!(total(&result.all()[0]), 3.0);
}

#[test]
fn partial_graphs_without_common_phones_merge_in_either_order() {
    let a = || graph(vec![rec("A", &["1", "2"], "1"), rec("B", &["3"], "2"), rec("C", &["2"], "3")]);
    let b = || graph(vec![rec("D", &["4"], "4"), rec("E", &["5", "4"], "5"), rec("F", &[], "6")]);
    let mut ab = Debtors::new();
    fold_result(a(), &mut ab);
    fold_result(b(), &mut ab);
    let mut ba = Debtors::new();
    fold_result(b(), &mut ba);
    fold_result(a(), &mut ba);
    assert_eq!(ab.len(), 4);
    assert_eq!(summaries(&ab), summaries(&ba));
}

#[test]
fn partial_graphs_that_share_phones_one_to_one_merge_in_either_order() {
    let a = || {
        graph(vec![
            rec("A", &["1", "2"], "1"),
            rec("B", &["3"], "2"),
            rec("C", &["2"], "3"),
            rec("D", &["8"], "4"),
        ])
    };
    let b = || {
        graph(vec![
            rec("E", &["9", "2"], "5"),
            rec("F", &["7"], "6"),
            rec("G", &["8", "6"], "7"),
            rec("A", &["9"], "8"),
        ])
    };
    let mut ab = Debtors::new();
    fold_result(a(), &mut ab);
    fold_result(b(), &mut ab);
    let mut ba = Debtors::new();
    fold_result(b(), &mut ba);
    fold_result(a(), &mut ba);
    assert_eq!(ab.len(), 4);
    assert_eq!(ba.len(), 4);
    assert_eq!(summaries(&ab), summaries(&ba));
    assert!(index_is_sound(&ab) && index_is_sound(&ba));
}

#[test]
fn partial_graphs_with_common_phones_may_merge_differently() {
    let a = || graph(vec![rec("A", &["1"], "1"), rec("B", &["2"], "2")]);
    let b = || graph(vec![rec("C", &["1", "2"], "4")]);
    let mut ab = Debtors::new();
    fold_result(a(), &mut ab);
    fold_result(b(), &mut ab);
    let mut ba = Debtors::new();
    fold_result(b(), &mut ba);
    fold_result(a(), &mut ba);
    assert_eq!(ab.len(), 2);
    assert_eq!(ba.len(), 1);
}

#[test]
fn empty_node_holds_nothing() {
    let d = Debtor::new();
    assert!(d.companies().is_empty());
    assert!(d.phones().is_empty());
    assert!(d.debts().is_empty());
}

#[test]
fn a_node_knows_its_members_and_keeps_each_once() {
    let g = graph(vec![
        rec("acme", &["1", "2"], "10"),
        rec("acme", &["2", "3"], "5"),
        rec("zen", &["2"], "1"),
        rec("other", &["9"], "7"),
    ]);
    assert_eq!(g.len(), 2);
    let node = &g.all()[0];
    assert_eq!(node.companies(), &vec!["acme".to_string(), "zen".to_string()]);
    assert_eq!(
        node.phones(),
        &vec!["1".to_string(), "2".to_string(), "3".to_string()]
    );
    assert!(node.has_phone("3"));
    assert!(!node.has_phone("9"));
    assert!(node.has_company("zen"));
    assert!(!node.has_company("other"));
    assert!(g.all()[1].has_phone("9"));
    assert!(!Debtor::new().has_phone("1"));
}

#[test]
fn merged_nodes_keep_their_members_findable() {
    let a = graph(vec![rec("a", &["1", "2"], "1")]);
    let b = graph(vec![rec("b", &["2", "3"], "2"), rec("a", &["2"], "3")]);
    let mut total = Debtors::new();
    fold_result(a, &mut total);
    fold_result(b, &mut total);
    assert_eq!(total.len(), 1);
    let node = &total.all()[0];
    assert_eq!(node.companies(), &vec!["a".to_string(), "b".to_string()]);
    assert!(node.has_phone("1") && node.has_phone("2") && node.has_phone("3"));
    assert!(node.has_company("a") && node.has_company("b"));
    assert!(!node.has_company("c"));
}
