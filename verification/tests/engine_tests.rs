use simkernel::engine::{Engine, Event, StepOutcome};
use simkernel::inc_machine::{ConnectionInfo, IncMachine};

fn two_connected() -> Engine<IncMachine> {
    let mut e: Engine<IncMachine> = Engine::new();
    let a = e.add_machine();
    let b = e.add_machine();
    assert_eq!(a, 0);
    assert_eq!(b, 1);
    e.connect(0, 1);
    e
}

#[test]
fn machine_ids_are_assigned_in_order() {
    let mut e: Engine<IncMachine> = Engine::new();
    assert_eq!(e.add_machine(), 0);
    assert_eq!(e.add_machine(), 1);
    assert_eq!(e.add_machine(), 2);
    assert_eq!(e.num_machines(), 3);
}

#[test]
fn step_on_empty_queue_is_a_noop() {
    let mut e: Engine<IncMachine> = Engine::new();
    assert!(matches!(e.step(), StepOutcome::Empty));
    e.add_machine();
    // a lone, unconnected machine schedules nothing
    assert!(matches!(e.step(), StepOutcome::Empty));
    assert_eq!(e.current_time(), 0);
}

#[test]
fn connect_seeds_the_lower_id_to_send_first() {
    let e = two_connected();
    // the side with the lower identity is scheduled to send 1 at time 1
    assert_eq!(e.machine(0).state_of(0), ConnectionInfo::WillSend(1, 1));
    assert_eq!(e.machine(1).state_of(0), ConnectionInfo::Waiting);
    assert_eq!(e.next_event_time(), Some(1));
}

#[test]
fn full_bounce_scenario() {
    let mut e = two_connected();

    // first step: id 0 is polled at time 1, sends the byte 1, and the
    // engine hands it to id 1 at that same instant
    match e.step() {
        StepOutcome::Stepped(rep) => {
            assert_eq!(rep.time, 1);
            assert_eq!(rep.id, 0);
            assert_eq!(rep.delivered, vec![1]);
            assert_eq!(rep.next, None);
        }
        _ => panic!("expected a step"),
    }
    assert_eq!(e.current_time(), 1);
    assert_eq!(e.machine(0).state_of(0), ConnectionInfo::Waiting);

    // second step: id 1 reacts at time 1, schedules 2 for time 1 + 2
    match e.step() {
        StepOutcome::Stepped(rep) => {
            assert_eq!(rep.time, 1);
            assert_eq!(rep.id, 1);
            assert_eq!(rep.delivered, Vec::<usize>::new());
            assert_eq!(rep.next, Some(3));
        }
        _ => panic!("expected a step"),
    }
    assert_eq!(e.machine(1).state_of(0), ConnectionInfo::WillSend(3, 2));

    // third step: id 1 sends the byte 2 back at time 3
    match e.step() {
        StepOutcome::Stepped(rep) => {
            assert_eq!(rep.time, 3);
            assert_eq!(rep.id, 1);
            assert_eq!(rep.delivered, vec![0]);
        }
        _ => panic!("expected a step"),
    }
    assert_eq!(e.current_time(), 3);
    assert_eq!(e.machine(1).state_of(0), ConnectionInfo::Waiting);

    // fourth step: id 0 receives 2 at time 3, schedules 3 for time 6
    match e.step() {
        StepOutcome::Stepped(rep) => {
            assert_eq!(rep.time, 3);
            assert_eq!(rep.id, 0);
            assert_eq!(rep.next, Some(6));
        }
        _ => panic!("expected a step"),
    }
    assert_eq!(e.machine(0).state_of(0), ConnectionInfo::WillSend(6, 3));
}

#[test]
fn transmitted_values_increase_by_one_each_bounce() {
    let mut e = two_connected();
    let mut sends: Vec<(u64, usize)> = Vec::new();
    for _ in 0..20 {
        match e.step() {
            StepOutcome::Stepped(rep) => {
                if !rep.delivered.is_empty() {
                    sends.push((rep.time, rep.id));
                }
            }
            StepOutcome::Empty => break,
            StepOutcome::Faulted(f) => panic!("unexpected fault {f:?}"),
        }
    }
    // sends happen at times 1, 3, 6, 10, ... : each gap equals the
    // value about to be sent, which increases by one per bounce
    let times: Vec<u64> = sends.iter().map(|s| s.0).collect();
    assert_eq!(&times[..5], &[1, 3, 6, 10, 15]);
    // the two machines alternate as senders
    let senders: Vec<usize> = sends.iter().map(|s| s.1).collect();
    assert_eq!(&senders[..5], &[0, 1, 0, 1, 0]);
}

#[test]
fn observed_poll_times_never_decrease() {
    let mut e = two_connected();
    let mut last = 0u64;
    for _ in 0..30 {
        match e.step() {
            StepOutcome::Stepped(rep) => {
                assert!(rep.time >= last, "time moved backward");
                last = rep.time;
            }
            StepOutcome::Empty => break,
            StepOutcome::Faulted(f) => panic!("unexpected fault {f:?}"),
        }
    }
    assert!(last > 0);
}

#[test]
fn mail_is_delivered_at_the_sending_instant() {
    let mut e = two_connected();
    match e.step() {
        StepOutcome::Stepped(rep) => {
            // id 1 received mail during the poll at time 1, so an event
            // for id 1 at time 1 is pending before anything later runs
            assert_eq!(rep.delivered, vec![1]);
            let snap = e.snapshot();
            assert!(snap.events.contains(&Event { time: rep.time, id: 1 }));
            assert_eq!(e.next_event_time(), Some(rep.time));
        }
        _ => panic!("expected a step"),
    }
}

#[test]
fn dormant_machine_is_never_scheduled() {
    let mut e: Engine<IncMachine> = Engine::new();
    e.add_machine();
    e.add_machine();
    e.add_machine();
    e.connect(0, 1);
    // machine 2 has no connection, no mail, and reports no wake time:
    // it must never appear in the event queue
    for _ in 0..20 {
        let snap = e.snapshot();
        assert!(snap.events.iter().all(|ev| ev.id != 2));
        assert_eq!(snap.wakes[2], None);
        match e.step() {
            StepOutcome::Empty => break,
            StepOutcome::Faulted(f) => panic!("unexpected fault {f:?}"),
            StepOutcome::Stepped(_) => {}
        }
    }
}

#[test]
fn snapshot_is_idempotent() {
    let mut e = two_connected();
    let s1 = e.snapshot();
    let s2 = e.snapshot();
    assert_eq!(s1, s2);
    e.step();
    let s3 = e.snapshot();
    let s4 = e.snapshot();
    assert_eq!(s3, s4);
    assert_ne!(s1, s3);
}

#[test]
fn next_due_respects_the_deadline() {
    let e = two_connected();
    assert_eq!(e.num_connections(), 1);
    // the first event sits at time 1
    assert_eq!(e.next_due(0), None);
    assert_eq!(e.next_due(1), Some(1));
    assert_eq!(e.next_due(100), Some(1));
}

#[test]
fn snapshot_reports_time_events_and_wakes() {
    let e = two_connected();
    let snap = e.snapshot();
    assert_eq!(snap.time, 0);
    assert_eq!(snap.events, vec![Event { time: 1, id: 0 }]);
    assert_eq!(snap.wakes, vec![Some(1), None]);
}

#[test]
fn two_engines_run_the_same_trace() {
    let mut e1 = two_connected();
    let mut e2 = two_connected();
    for _ in 0..15 {
        let r1 = e1.step();
        let r2 = e2.step();
        match (r1, r2) {
            (StepOutcome::Stepped(a), StepOutcome::Stepped(b)) => {
                assert_eq!(a.time, b.time);
                assert_eq!(a.id, b.id);
                assert_eq!(a.delivered, b.delivered);
                assert_eq!(a.next, b.next);
            }
            (StepOutcome::Empty, StepOutcome::Empty) => break,
            _ => panic!("the two runs diverged"),
        }
        assert_eq!(e1.snapshot(), e2.snapshot());
    }
}
