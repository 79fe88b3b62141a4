use jsonparse::debtors::{Debtor, Debtors};
use jsonparse::extract::Debt;
use jsonparse::framer::Framer;
use jsonparse::worker::{sentinel, Pipeline, Step, Worker, PRN_COUNT};

fn amount(debt: &Debt) -> f64 {
    match debt {
        Debt::Number(text) => text.parse().unwrap_or(0.0),
        Debt::Text(text) => text.parse().unwrap_or(0.0),
        Debt::Zero => 0.0,
    }
}

fn total(node: &Debtor) -> f64 {
    node.debts().iter().map(amount).sum()
}

fn summaries(g: &Debtors) -> Vec<(Vec<String>, Vec<String>, u64)> {
    let mut out: Vec<(Vec<String>, Vec<String>, u64)> = g
        .all()
        .iter()
        .map(|n| {
            let mut companies = n.companies().clone();
            companies.sort();
            let mut phones = n.phones().clone();
            phones.sort();
            (companies, phones, total(n) as u64)
        })
        .collect();
    out.sort();
    out
}

fn run_in_line(stream: &[u8], chunk: usize) -> Worker {
    let mut p = Pipeline::new();
    for c in stream.chunks(chunk) {
        assert!(p.has_room(c.len()));
        p.feed(c);
    }
    p.finish()
}

#[test]
fn worker_counts_processed_and_errors() {
    let mut w = Worker::new();
    assert_eq!(w.handle(b"{\"company\":\"A\",\"phone\":\"1\",\"debt\":1}"), Step::Continue);
    assert_eq!(w.handle(b"{\"company\":"), Step::Continue);
    assert_eq!(w.handle(b"{\"company\":\"B\",\"phone\":\"1\",\"debt\":2}"), Step::Continue);
    assert_eq!(w.processed_count(), 2);
    assert_eq!(w.error_count(), 1);
    assert_eq!(w.result().len(), 1);
}

#[test]
fn empty_message_stops_the_worker() {
    let mut w = Worker::new();
    assert_eq!(w.handle(b"{\"phone\":\"1\"}"), Step::Continue);
    assert_eq!(w.handle(&sentinel()), Step::Stop);
    assert_eq!(w.processed_count(), 1);
    assert_eq!(w.error_count(), 0);
    assert!(sentinel().is_empty());
}

#[test]
fn the_sign_to_stop_needs_no_room_in_the_counters() {
    let mut w = Worker::new();
    w.handle(b"{}");
    for _ in 0..3 {
        assert_eq!(w.handle(b""), Step::Stop);
    }
    assert_eq!((w.processed_count(), w.error_count()), (1, 0));
}

#[test]
fn process_counts_an_empty_record_as_an_error() {
    let mut w = Worker::new();
    assert_eq!(w.process(b""), None);
    assert_eq!(w.processed_count(), 0);
    assert_eq!(w.error_count(), 1);
}

#[test]
fn a_json_value_that_is_no_object_is_dropped_without_a_count() {
    let mut w = Worker::new();
    assert_eq!(w.process(b"[1,2,3]"), None);
    assert_eq!(w.handle(b"7"), Step::Continue);
    assert_eq!(w.handle(b"\"text\""), Step::Continue);
    assert_eq!(w.handle(b"null"), Step::Continue);
    assert_eq!(w.error_count(), 0);
    assert_eq!(w.processed_count(), 0);
    assert_eq!(w.result().len(), 0);
    assert_eq!(w.handle(b"{\"phone\":\"1\"}"), Step::Continue);
    assert_eq!(w.handle(b"[1,"), Step::Continue);
    assert_eq!((w.processed_count(), w.error_count()), (1, 1));
}

#[test]
fn malformed_record_between_two_valid_records() {
    let w = run_in_line(
        b"{\"company\":\"A\",\"phone\":\"1\",\"debt\":1} {\"company\":} {\"company\":\"B\",\"phone\":\"2\",\"debt\":2}",
        16,
    );
    assert_eq!(w.processed_count(), 2);
    assert_eq!(w.error_count(), 1);
    assert_eq!(w.result().len(), 2);
}

#[test]
fn every_valid_object_of_a_stream_is_processed() {
    let mut stream = Vec::new();
    for i in 0..500 {
        stream.extend_from_slice(
            format!("{{\"company\":\"c{}\",\"phones\":[\"{}\"],\"debt\":{}}}\n", i, i % 50, i)
                .as_bytes(),
        );
    }
    let w = run_in_line(&stream, 101);
    assert_eq!(w.processed_count(), 500);
    assert_eq!(w.error_count(), 0);
    assert_eq!(w.result().len(), 50);
}

#[test]
fn pipeline_gives_the_scenario_results() {
    let w = run_in_line(
        b"{\"company\":\"Acme\",\"phones\":[\"1\",\"2\"],\"debt\":10}{\"company\":\"Beta\",\"phone\":\"2\",\"debt\":5}",
        7,
    );
    let (g, processed, errors) = w.into_parts();
    assert_eq!((processed, errors), (2, 0));
    assert_eq!(g.len(), 1);
    assert_eq!(g.all()[0].companies(), &vec!["Acme".to_string(), "Beta".to_string()]);
    assert_eq!(g.all()[0].phones(), &vec!["1".to_string(), "2".to_string()]);
    assert_eq!(total(&g.all()[0]), 15.0);
}

#[test]
fn pipeline_is_the_framer_followed_by_a_worker() {
    let stream = b" {\"phone\":\"1\",\"debt\":1}{bad}{\"phone\":\"2\"} {\"phone\":\"1\",\"company\":\"Z\"}{\"x\":";
    let mut framer = Framer::new();
    let mut worker = Worker::new();
    for object in framer.feed(stream) {
        worker.handle(&object);
    }
    let in_line = run_in_line(stream, 5);
    assert_eq!(in_line.processed_count(), worker.processed_count());
    assert_eq!(in_line.error_count(), worker.error_count());
    assert_eq!(summaries(in_line.result()), summaries(worker.result()));
    assert_eq!(in_line.processed_count(), 3);
    assert_eq!(in_line.error_count(), 1);
}

#[test]
fn worker_reports_every_prn_count_records() {
    let mut w = Worker::new();
    let mut reports = Vec::new();
    for i in 0..(2 * PRN_COUNT + 5) {
        let msg = if i == 10 { "{bad}".to_string() } else { format!("{{\"phone\":\"{}\"}}", i % 7) };
        match w.handle(msg.as_bytes()) {
            Step::Report(n) => reports.push((i, n)),
            Step::Continue => {}
            Step::Stop => panic!("no sentinel was sent"),
        }
    }
    assert_eq!(reports, vec![(PRN_COUNT, PRN_COUNT), (2 * PRN_COUNT, 2 * PRN_COUNT)]);
    assert_eq!(w.processed_count(), 2 * PRN_COUNT + 4);
    assert_eq!(w.error_count(), 1);
}

#[test]
fn pipeline_returns_the_reports_of_a_chunk() {
    let mut stream = Vec::new();
    for i in 0..PRN_COUNT + 1 {
        stream.extend_from_slice(format!("{{\"phone\":\"{}\"}}", i % 3).as_bytes());
    }
    let mut p = Pipeline::new();
    assert!(p.has_room(stream.len()));
    let reports = p.feed(&stream);
    assert_eq!(reports, vec![PRN_COUNT]);
    assert_eq!(p.processed_count(), PRN_COUNT + 1);
    assert_eq!(p.error_count(), 0);
}

#[test]
fn join_adds_counts_and_merges_graphs() {
    let mut a = Worker::new();
    a.handle(b"{\"company\":\"A\",\"phone\":\"1\",\"debt\":1}");
    a.handle(b"{bad}");
    let mut b = Worker::new();
    b.handle(b"{\"company\":\"B\",\"phone\":\"1\",\"debt\":2}");
    b.handle(b"{\"company\":\"C\",\"phone\":\"3\",\"debt\":4}");
    let mut sum = Worker::new();
    sum.join(a);
    sum.join(b);
    assert_eq!(sum.processed_count(), 3);
    assert_eq!(sum.error_count(), 1);
    assert_eq!(sum.result().len(), 2);
    assert_eq!(total(&sum.result().all()[0]), 3.0);
    assert!(sum.has_room());
}

#[test]
fn four_workers_give_the_nodes_of_the_run_in_line() {
    let records: u64 = 100_000;
    let mut stream = Vec::new();
    for i in 0..records {
        stream.extend_from_slice(
            format!(
                "{{\"company\":\"c{}\",\"phones\":[\"{}\",\"x{}\"],\"debt\":{}}}\n",
                i % 1000,
                i % 4999,
                i,
                i % 10
            )
            .as_bytes(),
        );
    }
    let baseline = run_in_line(&stream, 65535);
    assert_eq!(baseline.processed_count(), records);

    let mut framer = Framer::new();
    let mut workers: Vec<Worker> = (0..4).map(|_| Worker::new()).collect();
    let mut dispatcher = jsonparse::dispatch::Dispatcher::new(4);
    for chunk in stream.chunks(65535) {
        for object in framer.feed(chunk) {
            let tid = dispatcher.advance();
            assert_eq!(workers[tid].handle(&object) == Step::Stop, false);
            dispatcher.accepted();
        }
    }
    for w in workers.iter_mut() {
        assert_eq!(w.handle(&sentinel()), Step::Stop);
    }
    let mut sum = Worker::new();
    while let Some(w) = workers.pop() {
        sum.join(w);
    }
    assert_eq!(sum.processed_count(), records);
    assert_eq!(sum.error_count(), 0);
    assert_eq!(sum.result().len(), 4999);
    assert_eq!(summaries(sum.result()), summaries(baseline.result()));
}

#[test]
fn any_deal_keeps_the_counts_and_the_debts() {
    let records: Vec<String> = (0..300u32)
        .map(|i| {
            if i % 17 == 0 {
                "{broken".to_string()
            } else if i % 19 == 0 {
                "[1,2]".to_string()
            } else {
                format!(
                    "{{\"company\":\"c{}\",\"phones\":[\"{}\",\"{}\"],\"debt\":{}}}",
                    i % 11,
                    i % 13,
                    (i * 7) % 29,
                    i
                )
            }
        })
        .collect();
    let debts_of = |w: &Worker| {
        let mut debts: Vec<String> = w
            .result()
            .all()
            .iter()
            .flat_map(|n| n.debts().iter().map(|d| format!("{:?}", d)))
            .collect();
        debts.sort();
        debts
    };
    let mut in_line = Worker::new();
    for r in &records {
        in_line.handle(r.as_bytes());
    }
    for n in [1usize, 2, 3, 5] {
        let mut workers: Vec<Worker> = (0..n).map(|_| Worker::new()).collect();
        for (i, r) in records.iter().enumerate() {
            workers[(i * i + 1) % n].handle(r.as_bytes());
        }
        let mut sum = Worker::new();
        while let Some(w) = workers.pop() {
            sum.join(w);
        }
        assert_eq!(sum.processed_count(), in_line.processed_count());
        assert_eq!(sum.error_count(), in_line.error_count());
        assert_eq!(debts_of(&sum), debts_of(&in_line));
    }
    assert_eq!(in_line.error_count(), 18);
    assert_eq!(in_line.processed_count(), 267);
}

#[test]
fn one_worker_gives_the_graph_of_the_run_in_line() {
    let stream = b"{\"company\":\"A\",\"phones\":[\"1\",\"2\"],\"debt\":1}{\"company\":\"B\",\"phones\":[\"3\"],\"debt\":2}{\"company\":\"C\",\"phones\":[\"3\",\"1\"],\"debt\":4}";
    let in_line = run_in_line(stream, 9);
    let mut framer = Framer::new();
    let mut worker = Worker::new();
    for object in framer.feed(stream) {
        worker.handle(&object);
    }
    let mut sum = Worker::new();
    sum.join(worker);
    let nodes = |w: &Worker| -> Vec<(Vec<String>, Vec<String>, usize)> {
        w.result()
            .all()
            .iter()
            .map(|n| (n.companies().clone(), n.phones().clone(), n.debts().len()))
            .collect()
    };
    assert_eq!(nodes(&sum), nodes(&in_line));
    assert_eq!(sum.result().len(), 2);
}

#[test]
fn two_workers_give_the_node_of_the_run_in_line() {
    let first = b"{\"company\":\"Acme\",\"phones\":[\"1\",\"2\"],\"debt\":10}";
    let second = b"{\"company\":\"Beta\",\"phone\":\"2\",\"debt\":5}";
    let mut in_line = Worker::new();
    in_line.handle(first);
    in_line.handle(second);
    let mut w0 = Worker::new();
    w0.handle(first);
    let mut w1 = Worker::new();
    w1.handle(second);
    let mut sum = Worker::new();
    sum.join(w1);
    sum.join(w0);
    assert_eq!(sum.result().len(), 1);
    assert_eq!(summaries(sum.result()), summaries(in_line.result()));
    assert_eq!(
        summaries(sum.result()),
        vec![(
            vec!["Acme".to_string(), "Beta".to_string()],
            vec!["1".to_string(), "2".to_string()],
            15
        )]
    );
}
