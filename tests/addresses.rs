use netem_switch::mac::MacAddr;
use netem_switch::meta::{join_directory, register_peers, HostAddr, MetaClient, MockMetaClient, NodeInfo};
use netem_switch::table::PortTable;

#[test]
fn parse_colon_form() {
    let m = MacAddr::parse("9c:69:b4:61:c0:b1").unwrap();
    assert_eq!(m.octets(), [0x9c, 0x69, 0xb4, 0x61, 0xc0, 0xb1]);
}

#[test]
fn parse_dash_form() {
    let m = MacAddr::parse("00-14-22-01-23-45").unwrap();
    assert_eq!(m.octets(), [0, 0x14, 0x22, 0x01, 0x23, 0x45]);
}

#[test]
fn parse_rejects_bad_text() {
    assert!(MacAddr::parse("zz:00:00:00:00:00").is_none());
    assert!(MacAddr::parse("00:00:00:00:00:00:00").is_none());
}

#[test]
fn broadcast_address() {
    assert!(MacAddr::broadcast().is_broadcast());
    assert!(MacAddr::parse("FF:FF:FF:FF:FF:FF").unwrap().is_broadcast());
    assert!(!MacAddr::new([0xff, 0xff, 0xff, 0xff, 0xff, 0xfe]).is_broadcast());
    assert!(MacAddr::broadcast() == MacAddr::new([0xff; 6]));
    assert!(MacAddr::broadcast() != MacAddr::new([0; 6]));
}

#[test]
fn host_addr_equality() {
    assert!(HostAddr::new("10.0.0.44", 10000) == HostAddr::new("10.0.0.44", 10000));
    assert!(HostAddr::new("10.0.0.44", 10000) != HostAddr::new("10.0.0.44", 10001));
    assert!(HostAddr::new("10.0.0.44", 10000) != HostAddr::new("10.0.0.45", 10000));
}

fn node(host: &str, mac: Option<u8>) -> NodeInfo {
    NodeInfo {
        addr: HostAddr::new(host, 10000),
        eth_mac_addr: mac.map(|b| MacAddr::new([2, 0, 0, 0, 0, b])),
        xdp_subnet_id: 1,
    }
}

#[test]
fn mock_directory_answers_preset() {
    let c = MockMetaClient::connet(HostAddr::new("127.0.0.1", 9000));
    let none = c.register(&HostAddr::new("10.0.0.44", 10000)).unwrap();
    assert!(none.is_empty());
    let one = c.register(&HostAddr::new("10.0.0.45", 10000)).unwrap();
    assert_eq!(one.len(), 1);
    assert!(one[0].addr == HostAddr::new("10.0.0.44", 10000));
    assert_eq!(one[0].eth_mac_addr.unwrap().octets(), [0x9c, 0x69, 0xb4, 0x61, 0xc0, 0xb1]);
    assert_eq!(one[0].xdp_subnet_id, 1);
    assert!(c.register(&HostAddr::new("10.0.0.46", 10000)).is_none());
}

#[test]
fn register_yields_exactly_seeded_peers() {
    let mut c = MockMetaClient::new();
    let me = HostAddr::new("10.0.0.1", 10000);
    c.insert(me.clone(), vec![node("10.0.0.2", Some(2)), node("10.0.0.3", None), node("10.0.0.4", Some(4))]);
    let peers = c.register(&me).unwrap();
    let hosts: Vec<String> = peers.iter().map(|n| n.addr.host.clone()).collect();
    assert_eq!(hosts, vec!["10.0.0.2", "10.0.0.3", "10.0.0.4"]);
}

#[test]
fn directory_insert_replaces() {
    let mut c = MockMetaClient::new();
    let me = HostAddr::new("10.0.0.1", 10000);
    c.insert(me.clone(), vec![node("10.0.0.2", Some(2))]);
    c.insert(me.clone(), vec![]);
    assert!(c.peers_of(&me).unwrap().is_empty());
}

#[test]
fn population_keeps_only_peers_with_address() {
    let mut c = MockMetaClient::new();
    let me = HostAddr::new("10.0.0.1", 10000);
    c.insert(me.clone(), vec![node("10.0.0.2", Some(2)), node("10.0.0.3", None), node("10.0.0.4", Some(4))]);
    let open = |n: &NodeInfo| -> (u64, String) { (n.eth_mac_addr.unwrap().octets()[5] as u64, n.addr.host.clone()) };
    let t = join_directory(&c, &me, &open).unwrap();
    assert_eq!(t.len(), 2);
    assert_eq!(t.get_send_handle(&MacAddr::new([2, 0, 0, 0, 0, 2])), Some(&"10.0.0.2".to_string()));
    assert_eq!(t.port_of(&MacAddr::new([2, 0, 0, 0, 0, 4])), Some(4));
    assert!(join_directory(&c, &HostAddr::new("10.9.9.9", 1), &open).is_none());
}

#[test]
fn population_adds_to_existing_routes() {
    let mut t: PortTable<u64> = PortTable::new();
    t.insert(MacAddr::new([9; 6]), 0, 0);
    let nodes = vec![node("a", Some(7)), node("b", None)];
    register_peers(&mut t, &nodes, &|_n: &NodeInfo| (5u64, 5u64));
    assert_eq!(t.len(), 2);
    assert_eq!(t.port_of(&MacAddr::new([9; 6])), Some(0));
    assert_eq!(t.port_of(&MacAddr::new([2, 0, 0, 0, 0, 7])), Some(5));
}

#[test]
fn population_last_node_with_an_address_wins() {
    let mut t: PortTable<String> = PortTable::new();
    let nodes = vec![node("first", Some(7)), node("second", Some(7))];
    register_peers(&mut t, &nodes, &|n: &NodeInfo| (1u64, n.addr.host.clone()));
    assert_eq!(t.len(), 1);
    assert_eq!(t.get_send_handle(&MacAddr::new([2, 0, 0, 0, 0, 7])), Some(&"second".to_string()));
}
