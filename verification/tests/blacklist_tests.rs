use blacklist::addr::IpAddress;
use blacklist::blacklist::{blacklist_from_iter, Blacklist, PortScope};

fn build(entries: &[&str]) -> Blacklist {
    blacklist_from_iter(entries.iter().map(|s| s.to_string()).collect())
}

#[test]
fn bare_address_blocks_all_ports() {
    let bl = build(&["127.0.0.1"]);
    assert_eq!(bl.len(), 1);
    let scope = bl.get(&IpAddress::V4(127, 0, 0, 1)).unwrap();
    assert!(matches!(scope, PortScope::AllPorts));
    assert!(scope.blocks(0));
    assert!(scope.blocks(2134));
    assert!(scope.blocks(65535));
}

#[test]
fn address_with_port_blocks_that_port() {
    let bl = build(&["127.0.0.1:2134"]);
    assert_eq!(bl.len(), 1);
    let scope = bl.get(&IpAddress::V4(127, 0, 0, 1)).unwrap();
    assert!(matches!(scope, PortScope::SpecificPorts(_)));
    assert!(scope.blocks(2134));
    assert!(!scope.blocks(80));
}

#[test]
fn escalation_is_order_independent() {
    let a = IpAddress::V4(1, 2, 3, 4);
    let first = build(&["1.2.3.4:80", "1.2.3.4"]);
    let second = build(&["1.2.3.4", "1.2.3.4:80"]);
    assert_eq!(first.len(), 1);
    assert_eq!(second.len(), 1);
    assert!(matches!(first.get(&a).unwrap(), PortScope::AllPorts));
    assert!(matches!(second.get(&a).unwrap(), PortScope::AllPorts));
}

#[test]
fn ports_accumulate() {
    let bl = build(&["1.2.3.4:80", "1.2.3.4:443"]);
    assert_eq!(bl.len(), 1);
    let scope = bl.get(&IpAddress::V4(1, 2, 3, 4)).unwrap();
    match scope {
        PortScope::SpecificPorts(_) => {}
        PortScope::AllPorts => panic!("expected specific ports"),
    }
    assert!(scope.blocks(80));
    assert!(scope.blocks(443));
    assert!(!scope.blocks(22));
}

#[test]
fn malformed_entries_are_dropped() {
    let bl = build(&["not-an-address", "1.2.3.4"]);
    assert_eq!(bl.len(), 1);
    assert!(bl.get(&IpAddress::V4(1, 2, 3, 4)).is_some());
    let scope = bl.get(&IpAddress::V4(1, 2, 3, 4)).unwrap();
    assert!(matches!(scope, PortScope::AllPorts));
}

#[test]
fn empty_input_yields_empty_table() {
    let bl = build(&[]);
    assert_eq!(bl.len(), 0);
    assert!(bl.get(&IpAddress::V4(1, 2, 3, 4)).is_none());
}

#[test]
fn repetition_is_idempotent() {
    let once = build(&["1.2.3.4"]);
    let twice = build(&["1.2.3.4", "1.2.3.4"]);
    assert_eq!(once.len(), twice.len());
    let a = IpAddress::V4(1, 2, 3, 4);
    assert!(matches!(twice.get(&a).unwrap(), PortScope::AllPorts));

    let once_port = build(&["1.2.3.4:80"]);
    let twice_port = build(&["1.2.3.4:80", "1.2.3.4:80"]);
    assert_eq!(once_port.len(), twice_port.len());
    let scope = twice_port.get(&a).unwrap();
    match scope {
        PortScope::SpecificPorts(ports) => assert_eq!(ports, &vec![80u16]),
        PortScope::AllPorts => panic!("expected specific ports"),
    }
}

#[test]
fn all_ports_is_never_narrowed() {
    let bl = build(&["1.2.3.4", "1.2.3.4:80"]);
    assert_eq!(bl.len(), 1);
    assert!(matches!(
        bl.get(&IpAddress::V4(1, 2, 3, 4)).unwrap(),
        PortScope::AllPorts
    ));
}

#[test]
fn hosts_are_kept_apart() {
    let bl = build(&["1.2.3.4", "5.6.7.8:80"]);
    assert_eq!(bl.len(), 2);
    assert!(matches!(
        bl.get(&IpAddress::V4(1, 2, 3, 4)).unwrap(),
        PortScope::AllPorts
    ));
    let scope = bl.get(&IpAddress::V4(5, 6, 7, 8)).unwrap();
    assert!(scope.blocks(80));
    assert!(!scope.blocks(81));
    assert!(bl.get(&IpAddress::V4(9, 9, 9, 9)).is_none());
}

#[test]
fn ipv6_hosts_work_in_both_forms() {
    let loopback = IpAddress::V6(0, 0, 0, 0, 0, 0, 0, 1);
    let bl = build(&["[::1]:80", "::1"]);
    assert_eq!(bl.len(), 1);
    assert!(matches!(bl.get(&loopback).unwrap(), PortScope::AllPorts));

    let bl2 = build(&["[::1]:80", "[::1]:443"]);
    let scope = bl2.get(&loopback).unwrap();
    assert!(scope.blocks(80));
    assert!(scope.blocks(443));
    assert!(!scope.blocks(8080));
}
