use std::collections::VecDeque;

use netem_switch::ether::{build, RELAY_ETHERTYPE};
use netem_switch::forward::{decide, plan_frame, Decision, ForwardActor, ForwardError, Outbox, Payload};
use netem_switch::frame::Frame;
use netem_switch::mac::MacAddr;
use netem_switch::table::PortTable;

const PORT_X: u64 = 1;
const PORT_Y: u64 = 2;
const PORT_Z: u64 = 3;

fn mac(b: u8) -> MacAddr {
    MacAddr::new([b, b, b, b, b, b])
}

fn frame_to(dst: &MacAddr) -> Frame {
    Frame::from_bytes(build(dst, &mac(0x11), 0x0800, &[1, 2, 3, 4]))
}

/// A table {aa.. -> X, bb.. -> Y}; the handle of each entry is its port id.
fn scenario_table() -> PortTable<u64> {
    let mut t = PortTable::new();
    t.insert(mac(0xaa), PORT_X, PORT_X);
    t.insert(mac(0xbb), PORT_Y, PORT_Y);
    t
}

/// One performed send: (handle, whether it carried the frame itself, bytes).
type Sent = (u64, bool, Vec<u8>);

/// Performs every send the outbox hands out; `fails` names the handles
/// whose sends fail.
fn drain(table: &PortTable<u64>, outbox: &mut Outbox, fails: &[u64]) -> Vec<Sent> {
    let mut sent = Vec::new();
    while let Some(d) = outbox.next() {
        let h = *table.handle_at(d.entry).unwrap();
        assert_eq!(table.port_at(d.entry), Some(d.port));
        let record = match d.payload {
            Payload::Frame(f) => (h, true, f.to_vec()),
            Payload::Raw(v) => (h, false, v),
        };
        sent.push(record);
        if fails.contains(&h) {
            outbox.report_failure();
        }
    }
    sent
}

fn run(table: &PortTable<u64>, self_port: u64, frames: Vec<Frame>, fails: &[u64]) -> (Vec<Sent>, Result<usize, ForwardError>) {
    let mut outbox = ForwardActor::new(self_port).handle_frames(table, frames);
    let sent = drain(table, &mut outbox, fails);
    (sent, outbox.outcome())
}

#[test]
fn scenario_unicast_goes_only_to_registered_port() {
    let t = scenario_table();
    let f = frame_to(&mac(0xbb));
    let bytes = f.to_vec();
    let (sent, r) = run(&t, PORT_X, vec![f], &[]);
    assert_eq!(r, Ok(0));
    assert_eq!(sent, vec![(PORT_Y, true, bytes)]);
}

#[test]
fn scenario_broadcast_excludes_receiving_port() {
    let t = scenario_table();
    let f = frame_to(&MacAddr::broadcast());
    let bytes = f.to_vec();
    let (sent, r) = run(&t, PORT_X, vec![f], &[]);
    assert_eq!(r, Ok(0));
    assert_eq!(sent, vec![(PORT_Y, false, bytes)]);
}

#[test]
fn scenario_unknown_destination_dropped_and_loop_continues() {
    let t = scenario_table();
    let g = frame_to(&mac(0xbb));
    let g_bytes = g.to_vec();
    let (sent, r) = run(&t, PORT_X, vec![frame_to(&mac(0xcc)), g], &[]);
    assert_eq!(r, Ok(1));
    assert_eq!(sent, vec![(PORT_Y, true, g_bytes)]);
}

#[test]
fn unknown_destination_sends_nothing() {
    let t = scenario_table();
    let (sent, r) = run(&t, PORT_X, vec![frame_to(&mac(0xcc))], &[]);
    assert_eq!(r, Ok(1));
    assert!(sent.is_empty());
}

#[test]
fn broadcast_reaches_every_other_port_in_table_order() {
    let mut t = scenario_table();
    t.insert(mac(0xdd), PORT_Z, PORT_Z);
    let (sent, r) = run(&t, PORT_Y, vec![frame_to(&MacAddr::broadcast())], &[]);
    assert_eq!(r, Ok(0));
    let ports: Vec<u64> = sent.iter().map(|s| s.0).collect();
    assert_eq!(ports, vec![PORT_X, PORT_Z]);
    assert!(sent.iter().all(|s| !s.1));
}

#[test]
fn unicast_to_own_port_is_still_sent() {
    let t = scenario_table();
    let (sent, r) = run(&t, PORT_X, vec![frame_to(&mac(0xaa))], &[]);
    assert_eq!(r, Ok(0));
    assert_eq!(sent.len(), 1);
    assert_eq!(sent[0].0, PORT_X);
}

#[test]
fn flood_fails_when_one_send_fails() {
    let mut t = scenario_table();
    t.insert(mac(0xdd), PORT_Z, PORT_Z);
    let (sent, r) = run(&t, PORT_Z, vec![frame_to(&MacAddr::broadcast()), frame_to(&mac(0xbb))], &[PORT_X]);
    assert_eq!(r, Err(ForwardError::SendFailed));
    let ports: Vec<u64> = sent.iter().map(|s| s.0).collect();
    assert_eq!(ports, vec![PORT_X]);
}

#[test]
fn flood_failure_on_last_port_still_fails() {
    let mut t = scenario_table();
    t.insert(mac(0xdd), PORT_Z, PORT_Z);
    let (sent, r) = run(&t, PORT_X, vec![frame_to(&MacAddr::broadcast())], &[PORT_Z]);
    assert_eq!(r, Err(ForwardError::SendFailed));
    assert_eq!(sent.len(), 2);
}

#[test]
fn unicast_send_failure_stops_batch() {
    let t = scenario_table();
    let (sent, r) = run(&t, PORT_X, vec![frame_to(&mac(0xbb)), frame_to(&mac(0xaa))], &[PORT_Y]);
    assert_eq!(r, Err(ForwardError::SendFailed));
    assert_eq!(sent.len(), 1);
    assert_eq!(sent[0].0, PORT_Y);
}

#[test]
fn short_frame_is_malformed() {
    let t = scenario_table();
    let (sent, r) = run(&t, PORT_X, vec![Frame::from_bytes(vec![0xff; 13])], &[]);
    assert_eq!(r, Err(ForwardError::Malformed));
    assert!(sent.is_empty());
}

#[test]
fn batch_stops_at_malformed_frame() {
    let t = scenario_table();
    let batch = vec![frame_to(&mac(0xbb)), Frame::from_bytes(vec![1, 2, 3]), frame_to(&mac(0xbb))];
    let (sent, r) = run(&t, PORT_X, batch, &[]);
    assert_eq!(r, Err(ForwardError::Malformed));
    assert_eq!(sent.len(), 1);
    assert_eq!(sent[0].0, PORT_Y);
}

#[test]
fn plan_frame_appends_sends() {
    let t = scenario_table();
    let mut out = VecDeque::new();
    assert_eq!(plan_frame(&t, PORT_X, frame_to(&mac(0xbb)), &mut out), Ok(Decision::Unicast(PORT_Y)));
    assert_eq!(plan_frame(&t, PORT_Y, frame_to(&MacAddr::broadcast()), &mut out), Ok(Decision::Flood));
    assert_eq!(plan_frame(&t, PORT_X, frame_to(&mac(0xcc)), &mut out), Ok(Decision::Drop));
    assert_eq!(plan_frame(&t, PORT_X, Frame::from_bytes(vec![0; 4]), &mut out), Err(ForwardError::Malformed));
    let entries: Vec<(u64, usize, bool)> =
        out.iter().map(|d| (d.port, d.entry, matches!(d.payload, Payload::Frame(_)))).collect();
    assert_eq!(entries, vec![(PORT_Y, 1, true), (PORT_X, 0, false)]);
}

#[test]
fn empty_batch_sends_nothing() {
    let t = scenario_table();
    let (sent, r) = run(&t, PORT_X, vec![], &[]);
    assert_eq!(r, Ok(0));
    assert!(sent.is_empty());
}

#[test]
fn decide_covers_each_case() {
    let t = scenario_table();
    assert_eq!(decide(&t, &build(&mac(0xbb), &mac(1), RELAY_ETHERTYPE, &[])), Decision::Unicast(PORT_Y));
    assert_eq!(decide(&t, &build(&MacAddr::broadcast(), &mac(1), 0x0806, &[])), Decision::Flood);
    assert_eq!(decide(&t, &build(&mac(0xcc), &mac(1), 0x0800, &[9])), Decision::Drop);
    assert_eq!(decide(&t, &[0u8; 5]), Decision::Malformed);
}

#[test]
fn actor_reports_its_port() {
    assert_eq!(ForwardActor::new(7).port_id(), 7);
}

#[test]
fn broadcast_sends_once_per_port() {
    let mut t: PortTable<u64> = PortTable::new();
    t.insert(MacAddr::new([2, 0, 0, 0, 0, 1]), 5, 50);
    t.insert(MacAddr::new([2, 0, 0, 0, 0, 2]), 5, 51);
    t.insert(MacAddr::new([2, 0, 0, 0, 0, 3]), 0, 0);
    t.insert(MacAddr::new([2, 0, 0, 0, 0, 4]), 6, 60);
    let (sent, r) = run(&t, 0, vec![frame_to(&MacAddr::broadcast())], &[]);
    assert_eq!(r, Ok(0));
    let handles: Vec<u64> = sent.iter().map(|s| s.0).collect();
    assert_eq!(handles, vec![50, 60]);
}
