use simkernel::channel::{Channel, Network};
use simkernel::inc_machine::{ConnectionInfo, IncMachine};
use simkernel::machine::Machine;

fn net_with(n: usize) -> Network {
    let mut net = Network::new();
    for _ in 0..n {
        net.add_buf();
    }
    net
}

#[test]
fn a_fresh_machine_is_dormant() {
    let m = IncMachine::start(3);
    assert_eq!(m.num_connections(), 0);
    assert_eq!(m.poll_at(), None);
}

#[test]
fn the_lower_id_sends_first() {
    let mut m = IncMachine::start(0);
    let ch = Channel { self_id: 0, peer_id: 1, outbox: 0, inbox: 1 };
    m.add_connection(ch, 0);
    assert_eq!(m.state_of(0), ConnectionInfo::WillSend(1, 1));
    assert_eq!(m.poll_at(), Some(1));

    let mut m2 = IncMachine::start(1);
    let ch2 = Channel { self_id: 1, peer_id: 0, outbox: 2, inbox: 3 };
    m2.add_connection(ch2, 0);
    assert_eq!(m2.state_of(0), ConnectionInfo::Waiting);
    assert_eq!(m2.poll_at(), None);
}

#[test]
fn a_scheduled_send_fires_only_once_its_time_arrives() {
    let mut net = net_with(2);
    let mut m = IncMachine::start(0);
    m.add_connection(Channel { self_id: 0, peer_id: 1, outbox: 0, inbox: 1 }, 0);

    // at time 0 the send for time 1 does not fire and nothing changes
    m.poll(0, &mut net).unwrap();
    assert_eq!(m.state_of(0), ConnectionInfo::WillSend(1, 1));
    assert_eq!(net.buf_len(0), 0);

    // at time 1 the byte goes out and the connection waits again
    m.poll(1, &mut net).unwrap();
    assert_eq!(m.state_of(0), ConnectionInfo::Waiting);
    assert_eq!(net.buf_len(0), 1);
    assert_eq!(net.take_buf(0), vec![1]);
}

#[test]
fn receiving_a_byte_schedules_the_increment() {
    let mut net = net_with(2);
    let mut m = IncMachine::start(1);
    m.add_connection(Channel { self_id: 1, peer_id: 0, outbox: 0, inbox: 1 }, 0);

    // the byte 4 arrives in the inbox; at time 9 the machine reads it,
    // schedules 5 for time 9 + 5, and drains the inbox
    net.append_bytes(1, &vec![4u8]);
    m.poll(9, &mut net).unwrap();
    assert_eq!(m.state_of(0), ConnectionInfo::WillSend(14, 5));
    assert_eq!(m.poll_at(), Some(14));
    assert_eq!(net.buf_len(1), 0);
}

#[test]
fn the_increment_saturates_at_the_largest_byte() {
    let mut net = net_with(2);
    let mut m = IncMachine::start(1);
    m.add_connection(Channel { self_id: 1, peer_id: 0, outbox: 0, inbox: 1 }, 0);
    net.append_bytes(1, &vec![255u8]);
    m.poll(10, &mut net).unwrap();
    assert_eq!(m.state_of(0), ConnectionInfo::WillSend(10 + 255, 255));
}

#[test]
fn an_overflowing_wake_time_is_fatal() {
    let mut net = net_with(2);
    let mut m = IncMachine::start(1);
    m.add_connection(Channel { self_id: 1, peer_id: 0, outbox: 0, inbox: 1 }, 0);
    net.append_bytes(1, &vec![200u8]);
    let r = m.poll(u64::MAX - 10, &mut net);
    assert_eq!(r, Err(simkernel::Fault::TimeOverflow));
}

#[test]
fn an_idle_waiting_connection_stays_put() {
    let mut net = net_with(2);
    let mut m = IncMachine::start(1);
    m.add_connection(Channel { self_id: 1, peer_id: 0, outbox: 0, inbox: 1 }, 0);
    m.poll(5, &mut net).unwrap();
    assert_eq!(m.state_of(0), ConnectionInfo::Waiting);
    assert_eq!(m.poll_at(), None);
    assert_eq!(net.buf_len(0), 0);
}

#[test]
fn poll_at_reports_the_earliest_of_several_connections() {
    let mut m = IncMachine::start(0);
    m.add_connection(Channel { self_id: 0, peer_id: 3, outbox: 0, inbox: 1 }, 7);
    m.add_connection(Channel { self_id: 0, peer_id: 2, outbox: 2, inbox: 3 }, 4);
    // the connections are seeded WillSend(8, 1) and WillSend(5, 1)
    assert_eq!(m.poll_at(), Some(5));
}

#[test]
fn channels_move_bytes_through_the_arena() {
    let mut net = net_with(4);
    let a_side = Channel { self_id: 0, peer_id: 1, outbox: 0, inbox: 1 };
    let b_side = Channel { self_id: 1, peer_id: 0, outbox: 2, inbox: 3 };
    assert_eq!(a_side.self_id(), 0);
    assert_eq!(a_side.peer_id(), 1);

    a_side.send(&mut net, &b"abc".to_vec());
    a_side.send(&mut net, &b"de".to_vec());
    assert_eq!(net.buf_len(0), 5);

    // the engine's move step: a's outbox drains into b's inbox
    let moved = net.take_buf(0);
    net.append_buf(3, moved);
    assert_eq!(net.buf_len(0), 0);

    let got = b_side.recv(&mut net);
    assert_eq!(got, b"abcde".to_vec());
    assert_eq!(net.buf_len(3), 0);
}
