use simkernel::simulator::Node;
use simkernel::wire::Wire;
use simkernel::Fault;

#[test]
fn payload_is_delivered_exactly_after_the_delay() {
    let mut w = Wire::new(0, 1, 5);
    assert_eq!(w.poll_at(), None);

    // sent at time 10, so due at exactly 15
    let out = w.poll(10, vec![(0, b"hello".to_vec())]).unwrap();
    assert!(out.is_empty());
    assert_eq!(w.poll_at(), Some(15));

    // not yet: one tick early delivers nothing
    let out = w.poll(14, vec![]).unwrap();
    assert!(out.is_empty());
    assert_eq!(w.poll_at(), Some(15));

    // at 15 the payload reaches the opposite endpoint
    let out = w.poll(15, vec![]).unwrap();
    assert_eq!(out, vec![(1, b"hello".to_vec())]);
    assert_eq!(w.poll_at(), None);
}

#[test]
fn zero_delay_delivers_in_the_same_poll() {
    let mut w = Wire::new(3, 7, 0);
    let out = w.poll(2, vec![(7, vec![9])]).unwrap();
    assert_eq!(out, vec![(3, vec![9])]);
    assert_eq!(w.poll_at(), None);
}

#[test]
fn payloads_keep_their_order_even_with_equal_delivery_times() {
    let mut w = Wire::new(0, 1, 4);
    let out = w
        .poll(1, vec![(0, vec![1]), (0, vec![2]), (1, vec![3])])
        .unwrap();
    assert!(out.is_empty());
    // all three are due at 5, and leave in the order they were sent
    let out = w.poll(5, vec![]).unwrap();
    assert_eq!(out, vec![(1, vec![1]), (1, vec![2]), (0, vec![3])]);
}

#[test]
fn order_is_kept_across_polls() {
    let mut w = Wire::new(0, 1, 3);
    w.poll(0, vec![(0, vec![10])]).unwrap();
    w.poll(1, vec![(0, vec![20])]).unwrap();
    w.poll(2, vec![(0, vec![30])]).unwrap();
    // due at 3, 4 and 5: a poll at 4 hands out the first two, in order
    let out = w.poll(4, vec![]).unwrap();
    assert_eq!(out, vec![(1, vec![10]), (1, vec![20])]);
    assert_eq!(w.poll_at(), Some(5));
    let out = w.poll(5, vec![]).unwrap();
    assert_eq!(out, vec![(1, vec![30])]);
}

#[test]
fn unknown_sender_is_a_fatal_topology_error() {
    let mut w = Wire::new(0, 1, 2);
    let r = w.poll(0, vec![(9, vec![1])]);
    assert_eq!(r, Err(Fault::UnknownSender));
}

#[test]
fn delivery_time_overflow_is_fatal() {
    let mut w = Wire::new(0, 1, 2);
    let r = w.poll(u64::MAX - 1, vec![(0, vec![1])]);
    assert_eq!(r, Err(Fault::TimeOverflow));
}

#[test]
fn ingest_works_right_up_to_the_limit() {
    let mut w = Wire::new(0, 1, 2);
    let r = w.poll(u64::MAX - 2, vec![(0, vec![1])]);
    assert_eq!(r, Ok(vec![]));
    assert_eq!(w.poll_at(), Some(u64::MAX));
}
