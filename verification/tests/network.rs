use mydocker::network::command::{connect, create_network, list_network, veth_name, NetworkError};
use mydocker::network::ipam::{allocate_ip, register_network_subnet, release_ip, Ipam, SubNet};
use mydocker::network::network::{register_network, Network, Networks};

#[test]
fn subnet_parsing() {
    let sn = SubNet::from_str("192.168.0.0/24").expect("valid subnet");
    assert_eq!(sn.ip, [192, 168, 0, 0]);
    assert_eq!(sn.mask, 24);
    assert_eq!(sn.bitmap.len(), 32);
    assert_eq!(sn.bitmap[0], 1, "the network address starts allocated");
    assert!(sn.bitmap[1..].iter().all(|b| *b == 0));

    assert!(SubNet::from_str("10.0.0.0/8").is_some());
    assert!(SubNet::from_str("10.0.0.0/33").is_none());
    assert!(SubNet::from_str("10.0.0/24").is_none());
    assert!(SubNet::from_str("10.0.0.256/24").is_none());
    assert!(SubNet::from_str("10.0.0.0").is_none());
    assert!(SubNet::from_str("a.b.c.d/24").is_none());

    // number reading takes leading zeros and a leading plus sign
    let sn = SubNet::from_str("010.000.000.001/08").expect("leading zeros are numbers too");
    assert_eq!(sn.ip, [10, 0, 0, 1]);
    assert_eq!(sn.mask, 8);
    let sn = SubNet::from_str("+10.0.0.1/+24").expect("a leading plus is a number too");
    assert_eq!(sn.ip, [10, 0, 0, 1]);
    assert_eq!(sn.mask, 24);
    assert!(SubNet::from_str("++10.0.0.1/24").is_none(), "only one sign");
    assert!(SubNet::from_str("+.0.0.1/24").is_none(), "a sign alone is no number");
}

#[test]
fn subnet_allocation_order() {
    let mut sn = SubNet::from_str("192.168.1.0/24").expect("valid subnet");
    let first = sn.allocate_ip().expect("room in the pool");
    assert_eq!(first, [192, 168, 1, 1]);
    let second = sn.allocate_ip().expect("room in the pool");
    assert_eq!(second, [192, 168, 1, 2]);
    sn.release_ip([192, 168, 1, 1]);
    let again = sn.allocate_ip().expect("released address is free again");
    assert_eq!(again, [192, 168, 1, 1]);
}

#[test]
fn subnet_pool_exhaustion() {
    // a /31 spans two addresses and the network address starts taken
    let mut sn = SubNet::from_str("10.0.0.0/31").expect("valid subnet");
    assert_eq!(sn.allocate_ip(), Some([10, 0, 0, 1]));
    assert_eq!(sn.allocate_ip(), None);
}

#[test]
fn address_manager_by_network_name() {
    let mut ipam = Ipam::new();
    let sn = SubNet::from_str("172.18.0.0/24").expect("valid subnet");
    register_network_subnet(&mut ipam, "testbr", sn);
    let (ip, prefix) = allocate_ip(&mut ipam, "testbr").expect("allocates");
    assert_eq!(ip, [172, 18, 0, 1]);
    assert_eq!(prefix, 24);
    let (ip2, _) = allocate_ip(&mut ipam, "testbr").expect("allocates");
    assert_eq!(ip2, [172, 18, 0, 2]);
    release_ip(&mut ipam, "testbr", [172, 18, 0, 1]);
    let (ip3, _) = allocate_ip(&mut ipam, "testbr").expect("allocates");
    assert_eq!(ip3, [172, 18, 0, 1]);
    assert!(allocate_ip(&mut ipam, "nosuch").is_none());
}

#[test]
fn reregistering_a_subnet_replaces_it() {
    let mut ipam = Ipam::new();
    let first = SubNet::from_str("172.18.0.0/24").expect("valid subnet");
    register_network_subnet(&mut ipam, "testbr", first);
    let (taken, _) = allocate_ip(&mut ipam, "testbr").expect("allocates");
    assert_eq!(taken, [172, 18, 0, 1]);
    let fresh = SubNet::from_str("10.9.0.0/24").expect("valid subnet");
    register_network_subnet(&mut ipam, "testbr", fresh);
    let (ip, prefix) = allocate_ip(&mut ipam, "testbr").expect("allocates from the new pool");
    assert_eq!(ip, [10, 9, 0, 1]);
    assert_eq!(prefix, 24);
}

#[test]
fn networks_table() {
    let mut nets = Networks::new();
    let n = Network::new("testbr", "bridge");
    assert_eq!(n.get_name(), "testbr");
    register_network(&mut nets, n);
    register_network(&mut nets, Network::new("other", "bridge"));
    register_network(&mut nets, Network::new("testbr", "bridge"));
    let names = list_network(&nets);
    assert_eq!(names, vec!["testbr".to_string(), "other".to_string()]);
}

#[test]
fn create_network_registers_both_tables() {
    let mut nets = Networks::new();
    let mut ipam = Ipam::new();
    let n = create_network(&mut nets, &mut ipam, "bridge", "172.18.0.0/24", "testbr")
        .expect("create succeeds");
    assert_eq!(n.get_name(), "testbr");
    assert!(nets.find("testbr").is_some());
    let (ip, _) = allocate_ip(&mut ipam, "testbr").expect("subnet registered");
    assert_eq!(ip, [172, 18, 0, 1]);

    assert_eq!(
        create_network(&mut nets, &mut ipam, "overlay", "172.19.0.0/24", "x").unwrap_err(),
        NetworkError::UnknownDriver
    );
    assert_eq!(
        create_network(&mut nets, &mut ipam, "bridge", "bad", "x").unwrap_err(),
        NetworkError::InvalidSubnet
    );
}

#[test]
fn connect_names_the_interface_pair() {
    let mut nets = Networks::new();
    let mut ipam = Ipam::new();
    create_network(&mut nets, &mut ipam, "bridge", "172.18.0.0/24", "testbr")
        .expect("create succeeds");
    let ep = connect(&mut ipam, "testbr", "0123456789").expect("connect succeeds");
    assert_eq!(ep.id, "0123456789");
    assert_eq!(ep.network_name, "testbr");
    assert_eq!(ep.ip.0, [172, 18, 0, 1]);
    assert_eq!(ep.ip.1, 24);
    assert_eq!(ep.peer_name, Some("veth01234peer".to_string()));
    assert_eq!(veth_name("0123456789"), "veth01234");

    assert_eq!(
        connect(&mut ipam, "nosuch", "0123456789").unwrap_err(),
        NetworkError::PoolExhausted
    );
}
