use mempool_history::relay_queue::RelayQueue;
use mempool_history::resolution::LookupError;
use mempool_history::resolution::LookupOutcome;
use mempool_history::resolution::TimedTransactionStream;
use mempool_history::timed_tx::should_show;
use mempool_history::timed_tx::TimedHash;
use mempool_history::timed_tx::TimedTransaction;
use mempool_history::timed_tx::Transaction;
use mempool_history::timed_tx::TxHash;

fn hash(n: u64) -> TxHash {
    TxHash { w0: n, w1: 0, w2: 0, w3: 0 }
}

fn pending_tx(n: u64) -> Transaction {
    Transaction { hash: hash(n), block_number: None }
}

#[test]
fn timestamp_adds_elapsed() {
    let timed = TimedTransaction::timestamp_tx(pending_tx(7), 1_000, 23);
    assert_eq!(timed.timestamp, 1_023);
    assert_eq!(timed.transaction, pending_tx(7));
}

#[test]
fn timestamp_reaches_the_largest_value() {
    let timed = TimedTransaction::timestamp_tx(pending_tx(1), u64::MAX - 5, 5);
    assert_eq!(timed.timestamp, u64::MAX);
}

#[test]
fn run_pass_emits_on_first_pass() {
    let mut stream = TimedTransactionStream::new(100);
    let item = TimedHash { hash: hash(3), elapsed: 7 };
    let emitted = stream
        .run_pass(item, &vec![LookupOutcome::Found(pending_tx(3))])
        .unwrap();
    assert_eq!(
        emitted,
        vec![TimedTransaction { timestamp: 107, transaction: pending_tx(3) }]
    );
    assert_eq!(stream.retry_len(), 0);
}

#[test]
fn queue_is_fifo() {
    let mut queue = RelayQueue::new(3);
    assert!(queue.is_empty());
    assert_eq!(queue.capacity(), 3);
    assert!(queue.try_push(TimedHash { hash: hash(1), elapsed: 10 }));
    assert!(queue.try_push(TimedHash { hash: hash(2), elapsed: 20 }));
    assert_eq!(queue.len(), 2);
    assert_eq!(queue.pop_front(), Some(TimedHash { hash: hash(1), elapsed: 10 }));
    assert_eq!(queue.pop_front(), Some(TimedHash { hash: hash(2), elapsed: 20 }));
    assert_eq!(queue.pop_front(), None);
}

#[test]
fn full_queue_refuses_without_dropping() {
    let mut queue = RelayQueue::new(2);
    assert!(queue.try_push(TimedHash { hash: hash(1), elapsed: 1 }));
    assert!(queue.try_push(TimedHash { hash: hash(2), elapsed: 2 }));
    assert!(queue.is_full());
    // Backpressure: the third element is refused, nothing already queued is
    // dropped, and the producer can retry after the consumer pops.
    assert!(!queue.try_push(TimedHash { hash: hash(3), elapsed: 3 }));
    assert_eq!(queue.len(), 2);
    assert_eq!(queue.pop_front(), Some(TimedHash { hash: hash(1), elapsed: 1 }));
    assert!(queue.try_push(TimedHash { hash: hash(3), elapsed: 3 }));
    assert_eq!(queue.pop_front(), Some(TimedHash { hash: hash(2), elapsed: 2 }));
    assert_eq!(queue.pop_front(), Some(TimedHash { hash: hash(3), elapsed: 3 }));
}

#[test]
fn step_machine_single_pass() {
    let mut stream = TimedTransactionStream::new(500);
    stream.begin_pass(TimedHash { hash: hash(9), elapsed: 40 });
    assert_eq!(stream.next_hash(), Some(hash(9)));
    assert!(!stream.pass_done());
    let emitted = stream.resolve_next(LookupOutcome::Found(pending_tx(9)));
    assert_eq!(
        emitted,
        Ok(Some(TimedTransaction { timestamp: 540, transaction: pending_tx(9) }))
    );
    assert!(stream.pass_done());
    assert_eq!(stream.next_hash(), None);
    stream.finish_pass();
    assert_eq!(stream.retry_len(), 0);
}

#[test]
fn not_found_defers_into_next_retry_set() {
    let mut stream = TimedTransactionStream::new(0);
    stream.begin_pass(TimedHash { hash: hash(4), elapsed: 11 });
    assert_eq!(stream.resolve_next(LookupOutcome::NotFound), Ok(None));
    stream.finish_pass();
    assert_eq!(stream.retry_len(), 1);
    // The deferred entry is looked up first on the next pass, before the new
    // arrival, with its original capture time intact.
    stream.begin_pass(TimedHash { hash: hash(5), elapsed: 22 });
    assert_eq!(stream.next_hash(), Some(hash(4)));
    assert_eq!(
        stream.resolve_next(LookupOutcome::Found(pending_tx(4))),
        Ok(Some(TimedTransaction { timestamp: 11, transaction: pending_tx(4) }))
    );
    assert_eq!(stream.next_hash(), Some(hash(5)));
    assert_eq!(
        stream.resolve_next(LookupOutcome::Found(pending_tx(5))),
        Ok(Some(TimedTransaction { timestamp: 22, transaction: pending_tx(5) }))
    );
    stream.finish_pass();
    assert_eq!(stream.retry_len(), 0);
}

#[test]
fn transport_error_is_fatal() {
    let mut stream = TimedTransactionStream::new(0);
    stream.begin_pass(TimedHash { hash: hash(1), elapsed: 5 });
    assert_eq!(
        stream.resolve_next(LookupOutcome::TransportError),
        Err(LookupError::Transport)
    );
}

#[test]
fn run_pass_stops_at_transport_error() {
    let mut stream = TimedTransactionStream::new(0);
    let outcomes = vec![LookupOutcome::TransportError];
    let result = stream.run_pass(TimedHash { hash: hash(1), elapsed: 5 }, &outcomes);
    assert_eq!(result, Err(LookupError::Transport));
}

// Capacity 2; hashes A, B, C arrive in order; the lookup first returns
// not-found for A, then found for B, found for C. B and C resolve on their
// own arrival pass; A resolves on the pass triggered by C's arrival, and all
// three timestamps match the original capture times.
#[test]
fn three_arrivals_resolve_with_one_deferral() {
    let start: u64 = 1_000_000;
    let a = TimedHash { hash: hash(0xa), elapsed: 10 };
    let b = TimedHash { hash: hash(0xb), elapsed: 20 };
    let c = TimedHash { hash: hash(0xc), elapsed: 30 };
    let mut queue = RelayQueue::new(2);
    let mut stream = TimedTransactionStream::new(start);
    let mut outputs: Vec<TimedTransaction> = Vec::new();

    assert!(queue.try_push(a));
    assert!(queue.try_push(b));
    // The queue is at its capacity of 2: C waits until A is consumed.
    assert!(!queue.try_push(c));

    // Pass for A: lookup A comes back not-found.
    let item = queue.pop_front().unwrap();
    let emitted = stream.run_pass(item, &vec![LookupOutcome::NotFound]).unwrap();
    assert!(emitted.is_empty());
    assert_eq!(stream.retry_len(), 1);
    assert!(queue.try_push(c));

    // Pass for B: A is retried first and is still not found; B resolves.
    let item = queue.pop_front().unwrap();
    let emitted = stream
        .run_pass(
            item,
            &vec![LookupOutcome::NotFound, LookupOutcome::Found(pending_tx(0xb))],
        )
        .unwrap();
    outputs.extend(emitted);
    assert_eq!(stream.retry_len(), 1);

    // Pass for C: the retry of A now succeeds, then C resolves.
    let item = queue.pop_front().unwrap();
    let emitted = stream
        .run_pass(
            item,
            &vec![
                LookupOutcome::Found(pending_tx(0xa)),
                LookupOutcome::Found(pending_tx(0xc)),
            ],
        )
        .unwrap();
    outputs.extend(emitted);
    assert_eq!(stream.retry_len(), 0);

    assert_eq!(
        outputs,
        vec![
            TimedTransaction { timestamp: start + 20, transaction: pending_tx(0xb) },
            TimedTransaction { timestamp: start + 10, transaction: pending_tx(0xa) },
            TimedTransaction { timestamp: start + 30, transaction: pending_tx(0xc) },
        ]
    );
}

// The lookup never finds hash X: after n subsequent arrivals X has been
// retried once per arrival, was never resolved, and never appears twice in
// the retry set.
#[test]
fn stuck_hash_is_retried_once_per_arrival() {
    let n: u64 = 5;
    let x = TimedHash { hash: hash(0x77), elapsed: 1 };
    let mut stream = TimedTransactionStream::new(0);
    let emitted = stream.run_pass(x, &vec![LookupOutcome::NotFound]).unwrap();
    assert!(emitted.is_empty());
    let mut retries: u64 = 0;
    for k in 0..n {
        assert_eq!(stream.retry_len(), 1);
        let arrival = TimedHash { hash: hash(100 + k), elapsed: 10 + k };
        // X is drained and looked up exactly once in this pass, before the
        // new arrival.
        stream.begin_pass(arrival);
        assert_eq!(stream.next_hash(), Some(x.hash));
        assert_eq!(stream.resolve_next(LookupOutcome::NotFound), Ok(None));
        retries += 1;
        assert_eq!(stream.next_hash(), Some(arrival.hash));
        let emitted = stream.resolve_next(LookupOutcome::Found(pending_tx(100 + k)));
        assert_eq!(
            emitted,
            Ok(Some(TimedTransaction { timestamp: 10 + k, transaction: pending_tx(100 + k) }))
        );
        assert!(stream.pass_done());
        stream.finish_pass();
    }
    assert_eq!(retries, n);
    assert_eq!(stream.retry_len(), 1);
}

#[test]
fn filter_hides_confirmed_transactions_unless_asked() {
    let pending = TimedTransaction { timestamp: 5, transaction: pending_tx(1) };
    let confirmed = TimedTransaction {
        timestamp: 6,
        transaction: Transaction { hash: hash(2), block_number: Some(42) },
    };
    assert!(should_show(&pending, false));
    assert!(should_show(&pending, true));
    assert!(!should_show(&confirmed, false));
    assert!(should_show(&confirmed, true));
}
