use jsonparse::channel::{SyncAsyncSender, ASYNC, CHANNEL_BUF_SIZE, SYNC};
use jsonparse::dispatch::Dispatcher;

#[test]
fn dispatcher_goes_round_the_workers() {
    let mut d = Dispatcher::new(3);
    let mut seen = Vec::new();
    for _ in 0..7 {
        seen.push(d.advance());
        d.accepted();
    }
    assert_eq!(seen, vec![1, 2, 0, 1, 2, 0, 1]);
}

#[test]
fn single_worker_gets_everything() {
    let mut d = Dispatcher::new(1);
    assert_eq!(d.advance(), 0);
    assert_eq!(d.advance(), 0);
    assert!(d.refused());
    assert!(d.refused());
}

#[test]
fn dispatcher_pauses_after_a_whole_round_of_refusals() {
    let mut d = Dispatcher::new(3);
    let mut pauses = Vec::new();
    let mut tried = Vec::new();
    for _ in 0..7 {
        tried.push(d.advance());
        pauses.push(d.refused());
    }
    assert_eq!(tried, vec![1, 2, 0, 1, 2, 0, 1]);
    assert_eq!(pauses, vec![false, false, true, false, false, true, false]);
}

#[test]
fn an_accepted_send_starts_the_count_of_refusals_anew() {
    let mut d = Dispatcher::new(2);
    d.advance();
    assert!(!d.refused());
    d.advance();
    d.accepted();
    d.advance();
    assert!(!d.refused());
    d.advance();
    assert!(d.refused());
}

#[test]
fn full_worker_is_passed_over() {
    let (mut full, _keep_full) = SyncAsyncSender::<Vec<u8>>::new(SYNC);
    for _ in 0..CHANNEL_BUF_SIZE {
        assert!(full.try_send(vec![1]));
    }
    let (free, from_free) = SyncAsyncSender::<Vec<u8>>::new(SYNC);
    let mut channels = vec![free, full];
    let mut d = Dispatcher::new(2);
    let mut sent_to = Vec::new();
    for i in 0..3u8 {
        loop {
            let tid = d.advance();
            if channels[tid].try_send(vec![i]) {
                d.accepted();
                sent_to.push(tid);
                break;
            }
            d.refused();
        }
    }
    assert_eq!(sent_to, vec![0, 0, 0]);
    assert_eq!(from_free.try_iter().collect::<Vec<_>>(), vec![vec![0], vec![1], vec![2]]);
}

#[test]
fn bounded_sender_refuses_when_full() {
    let (mut send, recv) = SyncAsyncSender::<u32>::new(SYNC);
    for i in 0..CHANNEL_BUF_SIZE {
        assert!(send.try_send(i as u32));
    }
    assert!(!send.try_send(0));
    assert_eq!(recv.recv().unwrap(), 0);
    assert!(send.try_send(7));
    assert!(matches!(send, SyncAsyncSender::Sync(_)));
}

#[test]
fn unbounded_sender_takes_more_than_the_bound() {
    let (mut send, recv) = SyncAsyncSender::<usize>::new(ASYNC);
    for i in 0..(CHANNEL_BUF_SIZE + 10) {
        assert!(send.try_send(i));
    }
    assert_eq!(recv.try_iter().count(), CHANNEL_BUF_SIZE + 10);
    assert!(matches!(send, SyncAsyncSender::Async(_)));
}

#[test]
fn send_fails_when_the_receiver_is_gone() {
    let (mut sync, recv) = SyncAsyncSender::<u8>::new(SYNC);
    drop(recv);
    assert!(!sync.try_send(1));
    let (mut not_sync, recv) = SyncAsyncSender::<u8>::new(ASYNC);
    drop(recv);
    assert!(!not_sync.try_send(1));
}

#[test]
fn what_was_taken_arrives_in_order_and_what_was_refused_does_not() {
    let (mut send, recv) = SyncAsyncSender::<usize>::new(SYNC);
    let mut taken = Vec::new();
    for i in 0..(CHANNEL_BUF_SIZE + 5) {
        if send.try_send(i) {
            taken.push(i);
        }
    }
    assert_eq!(taken.len(), CHANNEL_BUF_SIZE);
    assert_eq!(recv.try_iter().collect::<Vec<_>>(), taken);
}
