use mmproxy::config::Config;
use mmproxy::net::{Endpoint, IpAddress};
use mmproxy::relay::{relay_buffer, SpliceState, Pipe, PIPE_BUF_SIZE};
use mmproxy::session::{watcher_step, SessionTable, WatcherStep};
use mmproxy::steer::udp_datagram_plan;

fn ep4(a: u32, port: u16) -> Endpoint {
    Endpoint { ip: IpAddress::V4(a), port }
}

#[test]
fn relay_is_bytewise_identity() {
    let data: Vec<u8> = (0..100000u32).map(|i| (i % 251) as u8).collect();
    assert_eq!(relay_buffer(&data), data);
    let empty: Vec<u8> = Vec::new();
    assert_eq!(relay_buffer(&empty), empty);
    let one = vec![42u8];
    assert_eq!(relay_buffer(&one), one);
}

#[test]
fn splice_state_fill_drain() {
    let mut st = SpliceState::new();
    assert_eq!(st.fill_budget(), PIPE_BUF_SIZE);
    st.on_fill(1000);
    assert_eq!(st.fill_budget(), PIPE_BUF_SIZE - 1000);
    assert_eq!(st.drain_budget(), 1000);
    assert!(!st.finished());
    st.on_drain(400);
    assert_eq!(st.drain_budget(), 600);
    st.on_eof();
    assert!(!st.finished());
    st.on_drain(600);
    assert!(st.finished());
}

#[test]
fn pipe_capacity_is_one_mebibyte() {
    assert_eq!(PIPE_BUF_SIZE, 1 << 20);
    let p = Pipe { r: 3, w: 4 };
    assert_eq!(p.r, 3);
    assert_eq!(p.w, 4);
}

#[test]
fn session_table_insert_get_remove() {
    let mut t = SessionTable::new();
    let k1 = ep4(0x0A000001, 33000);
    let k2 = ep4(0x0A000002, 33000);
    assert_eq!(t.get(&k1), None);
    t.insert(k1, 7);
    t.insert(k2, 9);
    assert_eq!(t.len(), 2);
    assert_eq!(t.get(&k1), Some(7));
    assert_eq!(t.get(&k2), Some(9));
    assert_eq!(t.remove(&k1), Some(7));
    assert_eq!(t.get(&k1), None);
    assert_eq!(t.get(&k2), Some(9));
    assert_eq!(t.len(), 1);
}

#[test]
fn session_table_one_entry_per_peer() {
    // Re-inserting the same peer updates in place: never two entries.
    let mut t = SessionTable::new();
    let k = ep4(0x0A000001, 40000);
    t.insert(k, 1);
    t.insert(k, 2);
    assert_eq!(t.len(), 1);
    assert_eq!(t.get(&k), Some(2));
}

#[test]
fn session_table_remove_is_idempotent() {
    let mut t = SessionTable::new();
    let k = ep4(0x0A000001, 40000);
    t.insert(k, 1);
    assert_eq!(t.remove(&k), Some(1));
    assert_eq!(t.remove(&k), None);
    assert_eq!(t.len(), 0);
}

#[test]
fn same_ip_different_port_is_another_session() {
    let mut t = SessionTable::new();
    t.insert(ep4(0x0A000001, 1000), 1);
    t.insert(ep4(0x0A000001, 1001), 2);
    assert_eq!(t.len(), 2);
}

#[test]
fn watcher_closes_on_idle_interval() {
    // One datagram at t=0 bumps the counter to 1; with no further
    // activity the next two wakes sample the same value and the second
    // wake posts the close.
    let first_wake = watcher_step(0, 1);
    assert_eq!(first_wake, WatcherStep::Continue(1));
    let second_wake = watcher_step(1, 1);
    assert_eq!(second_wake, WatcherStep::Close);
}

#[test]
fn watcher_continues_while_active() {
    assert_eq!(watcher_step(5, 9), WatcherStep::Continue(9));
    assert_eq!(watcher_step(9, 9), WatcherStep::Close);
}

#[test]
fn rejected_datagram_leaves_no_session() {
    // A v1 header over UDP is refused before any session work: the
    // main-loop flow only touches the table on a successful plan, so
    // the table stays empty.
    let mut table = SessionTable::new();
    let peer = ep4(0x0A000005, 41000);
    let datagram = b"PROXY TCP4 198.51.100.7 203.0.113.9 51000 443\r\ndata";
    if let Ok(plan) = udp_datagram_plan(datagram, peer, &Config::default()) {
        table.insert(plan.session_key, 0);
    }
    assert_eq!(table.len(), 0);
    assert_eq!(table.get(&peer), None);
}

#[test]
fn idle_session_is_reaped() {
    // One datagram arrives, a session is made; the watcher sees no
    // further activity across an interval and posts the close; the
    // main loop removes the entry.
    let mut table = SessionTable::new();
    let peer = ep4(0x0A000005, 41000);
    table.insert(peer, 3);
    let activity_counter: u64 = 0; // no traffic after the first datagram
    let baseline = activity_counter;
    let decision = watcher_step(baseline, activity_counter);
    assert_eq!(decision, WatcherStep::Close);
    assert_eq!(table.remove(&peer), Some(3));
    assert_eq!(table.get(&peer), None);
}
