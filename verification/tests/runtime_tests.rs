use reactive_core::counter::counter_stats;
use reactive_core::runtime::DrainStep;
use reactive_core::runtime::Runtime;

#[test]
fn batched_writes_single_reeval() {
    // A signal starts at 0; two writes land in one turn; the drain
    // re-evaluates the one subscriber once, and it reads 2, not 1.
    let mut rt = Runtime::new(8);
    let s = rt.create_signal(0);
    let c = rt.create_consumer();
    assert_eq!(rt.read(s, c), 0);
    rt.write(s, 1);
    rt.write(s, 2);
    assert_eq!(rt.dirty_count(), 1);
    let mut evals = 0;
    let mut seen = 0;
    loop {
        match rt.next_dirty() {
            DrainStep::Evaluate(who) => {
                assert_eq!(who, c);
                evals += 1;
                seen = rt.read(s, who);
            }
            DrainStep::Done => break,
            DrainStep::RenderLoop => panic!("unexpected render loop"),
        }
    }
    assert_eq!(evals, 1);
    assert_eq!(seen, 2);
}

#[test]
fn conditional_read_not_reevaluated() {
    // A consumer that currently does not read signal `b` is not marked
    // dirty when `b` is written.
    let mut rt = Runtime::new(8);
    let a = rt.create_signal(10);
    let b = rt.create_signal(20);
    let c = rt.create_consumer();
    assert_eq!(rt.read(a, c), 10);
    rt.write(b, 21);
    assert!(!rt.is_queued(c));
    assert_eq!(rt.dirty_count(), 0);
    rt.write(a, 11);
    assert!(rt.is_queued(c));
    assert_eq!(rt.dirty_count(), 1);
}

#[test]
fn destroy_removes_every_subscription() {
    // Destroying a consumer empties its entry in every signal's
    // subscriber set and drops it from the dirty queue.
    let mut rt = Runtime::new(8);
    let s1 = rt.create_signal(1);
    let s2 = rt.create_signal(2);
    let c = rt.create_consumer();
    rt.read(s1, c);
    rt.read(s2, c);
    rt.write(s1, 5);
    assert!(rt.is_queued(c));
    rt.destroy_consumer(c);
    assert!(!rt.is_alive(c));
    assert!(!rt.is_subscribed(s1, c));
    assert!(!rt.is_subscribed(s2, c));
    assert!(!rt.is_queued(c));
    rt.write(s2, 6);
    assert_eq!(rt.dirty_count(), 0);
}

#[test]
fn two_consumers_each_reevaluated_once() {
    // Two subscribers of the same signal, three writes in one turn: each
    // is queued once and re-evaluated once.
    let mut rt = Runtime::new(8);
    let s = rt.create_signal(0);
    let c1 = rt.create_consumer();
    let c2 = rt.create_consumer();
    rt.read(s, c1);
    rt.read(s, c2);
    rt.write(s, 1);
    rt.write(s, 2);
    rt.write(s, 3);
    assert_eq!(rt.dirty_count(), 2);
    let mut evals_c1 = 0;
    let mut evals_c2 = 0;
    loop {
        match rt.next_dirty() {
            DrainStep::Evaluate(who) => {
                if who == c1 {
                    evals_c1 += 1;
                } else if who == c2 {
                    evals_c2 += 1;
                } else {
                    panic!("unknown consumer");
                }
                assert_eq!(rt.read(s, who), 3);
            }
            DrainStep::Done => break,
            DrainStep::RenderLoop => panic!("unexpected render loop"),
        }
    }
    assert_eq!(evals_c1, 1);
    assert_eq!(evals_c2, 1);
}

#[test]
fn reentrant_writes_hit_the_cap() {
    // A consumer that writes the signal it reads never reaches a fixed
    // point; the drain reports a re-render loop instead of spinning, and
    // the next turn starts clean.
    let mut rt = Runtime::new(3);
    let s = rt.create_signal(0);
    let c = rt.create_consumer();
    rt.read(s, c);
    rt.write(s, 1);
    let mut evals = 0;
    let outcome = loop {
        match rt.next_dirty() {
            DrainStep::Evaluate(who) => {
                evals += 1;
                let v = rt.read(s, who);
                rt.write(s, v + 1);
            }
            DrainStep::Done => break DrainStep::Done,
            DrainStep::RenderLoop => break DrainStep::RenderLoop,
        }
    };
    assert_eq!(outcome, DrainStep::RenderLoop);
    assert_eq!(evals, 3);
    assert_eq!(rt.dirty_count(), 0);
    assert_eq!(rt.next_dirty(), DrainStep::Done);
}

#[test]
fn subscriptions_rebuilt_from_actual_reads() {
    // A re-evaluation that no longer reads its old signal drops that
    // subscription: the next write of it does not mark the consumer dirty.
    let mut rt = Runtime::new(8);
    let a = rt.create_signal(1);
    let b = rt.create_signal(2);
    let c = rt.create_consumer();
    rt.read(a, c);
    rt.write(a, 3);
    match rt.next_dirty() {
        DrainStep::Evaluate(who) => {
            assert_eq!(who, c);
            // This pass takes the other branch and reads only `b`.
            assert_eq!(rt.read(b, who), 2);
        }
        other => panic!("expected an evaluation, got {:?}", other),
    }
    assert_eq!(rt.next_dirty(), DrainStep::Done);
    assert!(!rt.is_subscribed(a, c));
    assert!(rt.is_subscribed(b, c));
    rt.write(a, 4);
    assert!(!rt.is_queued(c));
    rt.write(b, 5);
    assert!(rt.is_queued(c));
}

#[test]
fn read_registers_subscriber_once() {
    // Two reads of one signal in one pass subscribe the consumer once:
    // one write still queues exactly one re-evaluation.
    let mut rt = Runtime::new(8);
    let s = rt.create_signal(7);
    let c = rt.create_consumer();
    assert_eq!(rt.read(s, c), 7);
    assert_eq!(rt.read(s, c), 7);
    assert!(rt.is_subscribed(s, c));
    rt.write(s, 8);
    assert_eq!(rt.dirty_count(), 1);
    assert_eq!(rt.next_dirty(), DrainStep::Evaluate(c));
    assert_eq!(rt.read(s, c), 8);
    assert_eq!(rt.next_dirty(), DrainStep::Done);
}

#[test]
fn counter_stats_values() {
    let even = counter_stats(4);
    assert!(even.is_even);
    assert_eq!(even.doubled, 8);
    let odd = counter_stats(3);
    assert!(!odd.is_even);
    assert_eq!(odd.doubled, 6);
    let zero = counter_stats(0);
    assert!(zero.is_even);
    assert_eq!(zero.doubled, 0);
    let negative = counter_stats(-2);
    assert!(negative.is_even);
    assert_eq!(negative.doubled, -4);
}
