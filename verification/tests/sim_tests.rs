use simkernel::simulator::{earliest_poll_time, machine_to_poll, run_sim_until, Node};
use simkernel::wire::Wire;
use simkernel::{take_all, Fault, PollResult};

#[test]
fn take_all_empties_the_source() {
    let mut v = vec![1u8, 2, 3];
    let taken = take_all(&mut v);
    assert_eq!(taken, vec![1, 2, 3]);
    assert!(v.is_empty());
    assert!(take_all(&mut v).is_empty());
}

#[test]
fn earliest_poll_time_picks_the_first_minimum() {
    let mut w0 = Wire::new(0, 1, 7);
    let mut w1 = Wire::new(0, 1, 3);
    let w2 = Wire::new(0, 1, 9);
    w0.poll(0, vec![(0, vec![1])]).unwrap(); // due at 7
    w1.poll(0, vec![(0, vec![2])]).unwrap(); // due at 3
    let nodes = vec![w0, w1, w2];
    assert_eq!(earliest_poll_time(&nodes), Some((1, 3)));
}

#[test]
fn earliest_poll_time_of_idle_nodes_is_none() {
    let nodes = vec![Wire::new(0, 1, 1), Wire::new(2, 3, 1)];
    assert_eq!(earliest_poll_time(&nodes), None);
}

#[test]
fn a_full_mailbox_outranks_every_wake_request() {
    let mut w0 = Wire::new(0, 1, 5);
    w0.poll(0, vec![(0, vec![1])]).unwrap(); // wants waking at 5
    let nodes = vec![w0, Wire::new(0, 1, 1)];
    let mut mailboxes: Vec<PollResult> = vec![Vec::new(), Vec::new()];
    assert_eq!(machine_to_poll(&nodes, &mailboxes, 2), Some((0, 5)));
    // give node 1 mail: it is polled first, at the current time
    mailboxes[1].push((0, vec![42]));
    assert_eq!(machine_to_poll(&nodes, &mailboxes, 2), Some((1, 2)));
}

#[test]
fn run_sim_until_stops_at_the_end_time() {
    // a wire looped onto one node: every delivery is re-ingested one
    // tick later, forever, so only the end time stops the run
    let mut w = Wire::new(0, 0, 1);
    w.poll(0, vec![(0, b"m".to_vec())]).unwrap();
    let mut nodes = vec![w];
    let rep = run_sim_until(&mut nodes, 5, 1000).unwrap();
    // the run finished: the next wake lies past the end time, and no
    // mail is left undelivered
    assert!(rep.finished);
    assert!(rep.steps > 0);
    assert!(rep.undelivered.iter().all(|m| m.is_empty()));
    assert_eq!(nodes[0].poll_at(), Some(6));
}

#[test]
fn run_sim_until_with_no_pending_work_returns_at_once() {
    let mut nodes = vec![Wire::new(0, 1, 2)];
    let rep = run_sim_until(&mut nodes, 100, 1000).unwrap();
    assert!(rep.finished);
    assert_eq!(rep.steps, 0);
    assert_eq!(nodes[0].poll_at(), None);
}

#[test]
fn a_destination_outside_the_registry_is_fatal() {
    // the wire's far end names node 5, but only one node is registered
    let mut w = Wire::new(0, 5, 1);
    w.poll(0, vec![(0, b"x".to_vec())]).unwrap();
    let mut nodes = vec![w];
    assert_eq!(run_sim_until(&mut nodes, 10, 1000), Err(Fault::UnknownDestination));
}

#[test]
fn the_step_budget_bounds_the_run() {
    let mut w = Wire::new(0, 0, 1);
    w.poll(0, vec![(0, b"m".to_vec())]).unwrap();
    let mut nodes = vec![w];
    // two steps only: the self-looped message cannot get far
    let rep = run_sim_until(&mut nodes, u64::MAX - 10, 2).unwrap();
    assert!(!rep.finished);
    assert_eq!(rep.steps, 2);
    let at = nodes[0].poll_at();
    assert!(at.is_some());
    assert!(at.unwrap() <= 3);
}

#[test]
fn an_unfinished_run_hands_back_the_undelivered_mail() {
    let mut w = Wire::new(0, 0, 1);
    w.poll(0, vec![(0, b"m".to_vec())]).unwrap();
    let mut nodes = vec![w];
    // one step: the wire emits its payload at time 1, and the budget
    // runs out before the delivery is consumed
    let rep = run_sim_until(&mut nodes, 100, 1).unwrap();
    assert!(!rep.finished);
    assert_eq!(rep.steps, 1);
    assert_eq!(rep.undelivered, vec![vec![(0, b"m".to_vec())]]);
}
